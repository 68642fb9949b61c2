//! The OCR engine behind an HTTP server: what it sends and how it reads the reply.
use crate::ocr::{OcrError, OcrOptions, OcrResult};
use crate::raster::{encode_png, png_file};
use crate::response::HttpOcrResponse;
use vstd::prelude::*;
use vstd::slice::slice_to_vec;
use vstd::string::*;

verus! {

/// How long a server has to answer, in milliseconds.
pub const TIMEOUT_MILLIS: u64 = 60000;

/// How many characters of an unreadable reply are quoted.
pub const SNIPPET_CHARS: usize = 200;

/// An OCR engine that asks a server over HTTP. The server takes a POST of
/// multipart/form-data with the fields `file` and `language`, and answers in JSON.
pub struct HttpOcrEngine {
    pub name: String,
    pub server_url: String,
    /// Extra headers, by name and value, that go with every request.
    pub headers: Vec<(String, String)>,
}

/// The file of a multipart form.
pub struct FilePart {
    pub field: String,
    pub file_name: String,
    pub mime: String,
    pub bytes: Vec<u8>,
}

/// A text field of a multipart form.
pub struct TextPart {
    pub field: String,
    pub value: String,
}

/// A POST of a multipart form with one file and one text field.
pub struct OcrRequest {
    pub url: String,
    pub file: FilePart,
    pub language: TextPart,
    pub timeout_millis: u64,
    pub headers: Vec<(String, String)>,
}

/// The start of a reply that is quoted where the reply cannot be read.
pub open spec fn snippet(raw: Seq<char>) -> Seq<char> {
    if raw.len() <= SNIPPET_CHARS {
        raw
    } else {
        raw.take(SNIPPET_CHARS as int)
    }
}

impl HttpOcrEngine {
    /// Whether `request` asks this engine's server to read the PNG file `png` in
    /// `language`.
    pub open spec fn asks(self, request: OcrRequest, png: Seq<u8>, language: Seq<char>) -> bool {
        &&& request.url@ == self.server_url@
        &&& request.file.field@ == "file"@
        &&& request.file.file_name@ == "image.png"@
        &&& request.file.mime@ == "image/png"@
        &&& request.file.bytes@ == png
        &&& request.language.field@ == "language"@
        &&& request.language.value@ == language
        &&& request.timeout_millis == TIMEOUT_MILLIS
        &&& request.headers@ == self.headers@
    }

    /// An engine that asks the server at `server_url` and sends no extra headers.
    pub fn new(server_url: String) -> (r: Self)
        ensures
            r.name@ == "http-ocr"@,
            r.server_url == server_url,
            r.headers@ == Seq::<(String, String)>::empty(),
    {
        Self::with_headers(server_url, Vec::new())
    }

    /// An engine that asks the server at `server_url` and sends `headers` with every
    /// request.
    pub fn with_headers(server_url: String, headers: Vec<(String, String)>) -> (r: Self)
        ensures
            r.name@ == "http-ocr"@,
            r.server_url == server_url,
            r.headers == headers,
    {
        HttpOcrEngine { name: "http-ocr".to_string(), server_url, headers }
    }

    /// The name of the engine.
    pub fn name(&self) -> (r: &str)
        ensures
            r@ == self.name@,
    {
        self.name.as_str()
    }

    /// The request that carries the PNG file `png`.
    pub fn form_request(&self, png: Vec<u8>, options: &OcrOptions) -> (r: OcrRequest)
        ensures
            self.asks(r, png@, options.language@),
            r.url@ == self.server_url@,
            r.file.field@ == "file"@,
            r.file.file_name@ == "image.png"@,
            r.file.mime@ == "image/png"@,
            r.file.bytes@ == png@,
            r.language.field@ == "language"@,
            r.language.value@ == options.language@,
            r.timeout_millis == 60000,
            r.headers@ == self.headers@,
    {
        let mut headers: Vec<(String, String)> = Vec::new();
        let mut i: usize = 0;
        while i < self.headers.len()
            invariant
                i <= self.headers@.len(),
                headers@ == self.headers@.take(i as int),
            decreases self.headers.len() - i,
        {
            let header = &self.headers[i];
            headers.push((header.0.clone(), header.1.clone()));
            assert(headers@ =~= self.headers@.take(i + 1));
            i = i + 1;
        }
        assert(headers@ =~= self.headers@);
        OcrRequest {
            url: self.server_url.clone(),
            file: FilePart {
                field: "file".to_string(),
                file_name: "image.png".to_string(),
                mime: "image/png".to_string(),
                bytes: png,
            },
            language: TextPart {
                field: "language".to_string(),
                value: options.language.clone(),
            },
            timeout_millis: TIMEOUT_MILLIS,
            headers,
        }
    }

    /// The request that has the text of an image read. The image is given by its 8-bit
    /// RGB samples; too few of them, a row longer than memory, or an image without extent
    /// are an error, and samples beyond the image make no difference. A row, with one byte
    /// before it, has to fit what the PNG encoder can count, which is 32 bits.
    pub fn request(
        &self,
        image_data: &[u8],
        width: u32,
        height: u32,
        options: &OcrOptions,
    ) -> (r: Result<OcrRequest, OcrError>)
        requires
            width > 0 && height > 0 && image_data@.len() >= 3 * width * height ==> 3 * width
                < u32::MAX,
        ensures
            match r {
                Err(OcrError::Message(message)) => {
                    &&& image_data@.len() < 3 * width * height || 3 * width > usize::MAX
                    &&& message@ == "failed to create image buffer from raw RGB data"@
                },
                Err(OcrError::Image(_)) => {
                    &&& image_data@.len() >= 3 * width * height && 3 * width <= usize::MAX
                    &&& width == 0 || height == 0
                },
                Ok(request) => {
                    &&& image_data@.len() >= 3 * width * height && 3 * width <= usize::MAX
                    &&& width > 0 && height > 0
                    &&& request.url@ == self.server_url@
                    &&& request.headers@ == self.headers@
                    &&& request.language.value@ == options.language@
                    &&& request.file.bytes@ == png_file(width, height, image_data@)
                    &&& self.asks(
                        request,
                        png_file(width, height, image_data@),
                        options.language@,
                    )
                    &&& self.asks(
                        request,
                        png_file(width, height, image_data@.take(3 * width * height)),
                        options.language@,
                    )
                },
            },
    {
        match encode_png(width, height, slice_to_vec(image_data)) {
            None => Err(
                OcrError::Message("failed to create image buffer from raw RGB data".to_string()),
            ),
            Some(Err(error)) => Err(OcrError::Image(error)),
            Some(Ok(png)) => Ok(self.form_request(png, options)),
        }
    }
}

/// The results in a server's reply. `parsed` is the reply `raw` read as JSON, or what the
/// JSON reader found wrong with it.
pub fn read_reply(raw: &str, parsed: Result<HttpOcrResponse, String>) -> (r: Result<
    Vec<OcrResult>,
    OcrError,
>)
    ensures
        match parsed {
            Ok(response) => {
                &&& r matches Ok(results)
                &&& results@.len() == response.count()
                &&& forall|i: int|
                    0 <= i < results@.len() ==> response.gives(i, #[trigger] results@[i])
            },
            Err(error) => {
                &&& r matches Err(OcrError::Message(message))
                &&& message@ == "OCR server returned unparseable response: "@ + error@
                    + "; body starts: "@ + snippet(raw@)
            },
        },
{
    match parsed {
        Ok(response) => Ok(response.into_results()),
        Err(error) => {
            let len = raw.unicode_len();
            let quoted = if len <= SNIPPET_CHARS {
                len
            } else {
                SNIPPET_CHARS
            };
            let start = raw.substring_char(0, quoted);
            assert(start@ =~= snippet(raw@));
            let mut message = "OCR server returned unparseable response: ".to_string();
            message.append(error.as_str());
            message.append("; body starts: ");
            message.append(start);
            Err(OcrError::Message(message))
        },
    }
}

/// What is quoted of an unreadable reply is its start: its first 200 characters, or all of
/// it where it has no more.
pub proof fn law_snippet_is_a_short_start(raw: Seq<char>)
    ensures
        snippet(raw).is_prefix_of(raw),
        snippet(raw).len() <= SNIPPET_CHARS,
        raw.len() <= SNIPPET_CHARS ==> snippet(raw) == raw,
        raw.len() <= 200 ==> snippet(raw) == raw,
        raw.len() > 200 ==> snippet(raw) == raw.take(200),
{
    if raw.len() > SNIPPET_CHARS {
        assert(snippet(raw) =~= raw.subrange(0, snippet(raw).len() as int));
    } else {
        assert(raw =~= raw.subrange(0, raw.len() as int));
    }
}

/// A request carries what it is to carry, part by part: it goes to the engine's own server,
/// with the engine's own headers, the file under the field `file` and the language under
/// the field `language`, and the server has a minute to answer.
pub proof fn law_requests_carry_what_was_asked(
    engine: HttpOcrEngine,
    request: OcrRequest,
    png: Seq<u8>,
    language: Seq<char>,
)
    requires
        engine.asks(request, png, language),
    ensures
        request.url@ == engine.server_url@,
        request.headers@ == engine.headers@,
        request.file.field@ == "file"@,
        request.file.file_name@ == "image.png"@,
        request.file.mime@ == "image/png"@,
        request.file.bytes@ == png,
        request.language.field@ == "language"@,
        request.language.value@ == language,
        request.timeout_millis == 60000,
{
}

/// Requests for different languages differ in their language, those for different images
/// in their file, and those of different engines in where they go or in their headers,
/// and they differ in nothing else.
pub proof fn law_requests_tell_apart_what_was_asked(
    one: HttpOcrEngine,
    other: HttpOcrEngine,
    a: OcrRequest,
    b: OcrRequest,
    png_a: Seq<u8>,
    png_b: Seq<u8>,
    language_a: Seq<char>,
    language_b: Seq<char>,
)
    requires
        one.asks(a, png_a, language_a),
        other.asks(b, png_b, language_b),
    ensures
        a.language.value@ == b.language.value@ <==> language_a == language_b,
        a.file.bytes@ == b.file.bytes@ <==> png_a == png_b,
        a.url@ == b.url@ <==> one.server_url@ == other.server_url@,
        a.headers@ == b.headers@ <==> one.headers@ == other.headers@,
        a.file.field@ == b.file.field@,
        a.file.file_name@ == b.file.file_name@,
        a.file.mime@ == b.file.mime@,
        a.language.field@ == b.language.field@,
        a.timeout_millis == b.timeout_millis,
{
}

} // verus!
