//! Cleaning recognised text.
use vstd::prelude::*;
use vstd::string::*;

verus! {

/// A set of characters that is stripped off the ends of a text.
#[derive(Clone, Copy)]
pub enum CharClass {
    /// The characters with Unicode's White_Space property.
    Space,
    /// The characters that table borders are misread as: bars and brackets.
    Border,
}

impl CharClass {
    /// Whether `c` belongs to the class.
    pub open spec fn holds(self, c: char) -> bool {
        match self {
            CharClass::Space => {
                ||| '\u{9}' <= c <= '\u{d}'
                ||| c == '\u{20}' || c == '\u{85}' || c == '\u{a0}' || c == '\u{1680}'
                ||| '\u{2000}' <= c <= '\u{200a}'
                ||| c == '\u{2028}' || c == '\u{2029}' || c == '\u{202f}' || c == '\u{205f}'
                ||| c == '\u{3000}'
            },
            CharClass::Border => {
                c == '|' || c == '[' || c == ']' || c == '(' || c == ')' || c == '{' || c == '}'
            },
        }
    }

    /// Whether `c` belongs to the class.
    pub fn contains(self, c: char) -> (r: bool)
        ensures
            r == self.holds(c),
    {
        match self {
            CharClass::Space => {
                ('\u{9}' <= c && c <= '\u{d}') || c == '\u{20}' || c == '\u{85}' || c == '\u{a0}'
                    || c == '\u{1680}' || ('\u{2000}' <= c && c <= '\u{200a}') || c == '\u{2028}'
                    || c == '\u{2029}' || c == '\u{202f}' || c == '\u{205f}' || c == '\u{3000}'
            },
            CharClass::Border => {
                c == '|' || c == '[' || c == ']' || c == '(' || c == ')' || c == '{' || c == '}'
            },
        }
    }
}

/// `s` without the characters of `class` that it starts with.
pub open spec fn strip_start(s: Seq<char>, class: CharClass) -> Seq<char>
    decreases s.len(),
{
    if s.len() > 0 && class.holds(s.first()) {
        strip_start(s.drop_first(), class)
    } else {
        s
    }
}

/// `s` without the characters of `class` that it ends in.
pub open spec fn strip_end(s: Seq<char>, class: CharClass) -> Seq<char>
    decreases s.len(),
{
    if s.len() > 0 && class.holds(s.last()) {
        strip_end(s.drop_last(), class)
    } else {
        s
    }
}

/// `s` without the characters of `class` at both ends.
pub open spec fn strip(s: Seq<char>, class: CharClass) -> Seq<char> {
    strip_end(strip_start(s, class), class)
}

/// Whether `c` is a digit or one of the characters that go with numbers.
pub open spec fn is_numeric_char(c: char) -> bool {
    ||| '0' <= c <= '9'
    ||| c == ',' || c == '.' || c == ' ' || c == '%' || c == '-' || c == '+' || c == '*' || c == '/'
}

/// Whether `s` reads as the content of a number cell.
pub open spec fn is_numeric(s: Seq<char>) -> bool {
    ||| forall|i: int| 0 <= i < s.len() ==> is_numeric_char(#[trigger] s[i])
    ||| s == seq!['N', '/', 'A']
    ||| s == seq!['Z']
    ||| s == seq!['-']
}

/// `s` without outer space, then without outer borders, then without the space inside
/// those.
pub open spec fn inner(s: Seq<char>) -> Seq<char> {
    strip(strip(strip(s, CharClass::Space), CharClass::Border), CharClass::Space)
}

/// The cleaned form of a recognised text: the inner text where that is numeric, and else the
/// text without outer space.
pub open spec fn cleaned(s: Seq<char>) -> Seq<char> {
    if inner(s).len() > 0 && is_numeric(inner(s)) {
        inner(s)
    } else {
        strip(s, CharClass::Space)
    }
}

/// The characters of a text.
fn to_chars(text: &str) -> (r: Vec<char>)
    ensures
        r@ == text@,
{
    let mut out: Vec<char> = Vec::new();
    for c in iter: text.chars()
        invariant
            out@ == iter.seq().take(iter.index()),
            iter.seq() == text@,
    {
        out.push(c);
        assert(out@ =~= iter.seq().take(iter.index() + 1));
    }
    out
}

/// Narrows `lo..hi` until it neither starts with nor ends in a character of `class`.
fn narrow(chars: &Vec<char>, lo: usize, hi: usize, class: CharClass) -> (r: (usize, usize))
    requires
        lo <= hi <= chars@.len(),
    ensures
        lo <= r.0 <= r.1 <= hi,
        chars@.subrange(r.0 as int, r.1 as int) == strip(
            chars@.subrange(lo as int, hi as int),
            class,
        ),
{
    let mut from: usize = lo;
    while from < hi && class.contains(chars[from])
        invariant
            lo <= from <= hi <= chars@.len(),
            strip_start(chars@.subrange(from as int, hi as int), class) == strip_start(
                chars@.subrange(lo as int, hi as int),
                class,
            ),
        decreases hi - from,
    {
        assert(chars@.subrange(from as int, hi as int).drop_first() =~= chars@.subrange(
            from + 1,
            hi as int,
        ));
        from = from + 1;
    }
    let ghost start = strip_start(chars@.subrange(lo as int, hi as int), class);
    assert(start == chars@.subrange(from as int, hi as int));
    let mut to: usize = hi;
    while from < to && class.contains(chars[to - 1])
        invariant
            lo <= from <= to <= hi <= chars@.len(),
            strip_end(chars@.subrange(from as int, to as int), class) == strip_end(start, class),
        decreases to - from,
    {
        assert(chars@.subrange(from as int, to as int).drop_last() =~= chars@.subrange(
            from as int,
            to - 1,
        ));
        to = to - 1;
    }
    (from, to)
}

/// Whether the characters in `lo..hi` read as the content of a number cell.
fn numeric_at(chars: &Vec<char>, lo: usize, hi: usize) -> (r: bool)
    requires
        lo <= hi <= chars@.len(),
    ensures
        r == is_numeric(chars@.subrange(lo as int, hi as int)),
{
    let ghost s = chars@.subrange(lo as int, hi as int);
    if hi - lo == 3 && chars[lo] == 'N' && chars[lo + 1] == '/' && chars[lo + 2] == 'A' {
        assert(s =~= seq!['N', '/', 'A']);
        return true;
    }
    if hi - lo == 1 && (chars[lo] == 'Z' || chars[lo] == '-') {
        assert(s =~= seq!['Z'] || s =~= seq!['-']);
        return true;
    }
    proof {
        if s == seq!['N', '/', 'A'] {
            assert(s.len() == 3 && s[0] == 'N' && s[1] == '/' && s[2] == 'A');
            assert(s[0] == chars@[lo as int] && s[1] == chars@[lo + 1] && s[2] == chars@[lo + 2]);
        }
        if s == seq!['Z'] || s == seq!['-'] {
            assert(s.len() == 1 && (s[0] == 'Z' || s[0] == '-'));
            assert(s[0] == chars@[lo as int]);
        }
    }
    let mut i: usize = lo;
    while i < hi
        invariant
            lo <= i <= hi <= chars@.len(),
            s == chars@.subrange(lo as int, hi as int),
            s != seq!['N', '/', 'A'],
            s != seq!['Z'],
            s != seq!['-'],
            forall|j: int| 0 <= j < i - lo ==> is_numeric_char(#[trigger] s[j]),
        decreases hi - i,
    {
        let c = chars[i];
        if !(('0' <= c && c <= '9') || c == ',' || c == '.' || c == ' ' || c == '%' || c == '-' || c
            == '+' || c == '*' || c == '/') {
            assert(!is_numeric_char(s[i - lo]));
            return false;
        }
        i = i + 1;
    }
    true
}

/// Cleans off what table borders were misread as. Vertical border lines often come out
/// as bars and brackets around a number; around other content, such as `(note)`, they
/// are taken to be meant.
pub fn clean_ocr_table_artifacts(text: &str) -> (r: String)
    ensures
        r@ == cleaned(text@),
{
    let chars = to_chars(text);
    let len = chars.len();
    assert(chars@.subrange(0, len as int) =~= text@);
    let (lo, hi) = narrow(&chars, 0, len, CharClass::Space);
    let (bare_lo, bare_hi) = narrow(&chars, lo, hi, CharClass::Border);
    let (inner_lo, inner_hi) = narrow(&chars, bare_lo, bare_hi, CharClass::Space);
    if inner_lo < inner_hi && numeric_at(&chars, inner_lo, inner_hi) {
        text.substring_char(inner_lo, inner_hi).to_owned()
    } else {
        text.substring_char(lo, hi).to_owned()
    }
}

/// Where the kept part of a text begins: all before it is of `class`.
proof fn lemma_strip_start(s: Seq<char>, class: CharClass) -> (k: int)
    ensures
        0 <= k <= s.len(),
        strip_start(s, class) == s.subrange(k, s.len() as int),
        forall|j: int| 0 <= j < k ==> class.holds(#[trigger] s[j]),
        k < s.len() ==> !class.holds(s[k]),
    decreases s.len(),
{
    if s.len() > 0 && class.holds(s.first()) {
        let rest = s.drop_first();
        let k = lemma_strip_start(rest, class);
        assert(rest.subrange(k, rest.len() as int) =~= s.subrange(k + 1, s.len() as int));
        assert forall|j: int| 0 <= j < k + 1 implies class.holds(#[trigger] s[j]) by {
            if j > 0 {
                assert(class.holds(rest[j - 1]));
            }
        }
        k + 1
    } else {
        assert(s.subrange(0, s.len() as int) =~= s);
        0
    }
}

/// Where the kept part of a text ends: all from there on is of `class`.
proof fn lemma_strip_end(s: Seq<char>, class: CharClass) -> (k: int)
    ensures
        0 <= k <= s.len(),
        strip_end(s, class) == s.subrange(0, k),
        forall|j: int| k <= j < s.len() ==> class.holds(#[trigger] s[j]),
        k > 0 ==> !class.holds(s[k - 1]),
    decreases s.len(),
{
    if s.len() > 0 && class.holds(s.last()) {
        let rest = s.drop_last();
        let k = lemma_strip_end(rest, class);
        assert(rest.subrange(0, k) =~= s.subrange(0, k));
        assert forall|j: int| k <= j < s.len() implies class.holds(#[trigger] s[j]) by {
            if j < rest.len() {
                assert(class.holds(rest[j]));
            }
        }
        k
    } else {
        assert(s.subrange(0, s.len() as int) =~= s);
        s.len() as int
    }
}

/// Where the kept part of a text lies.
proof fn lemma_strip(s: Seq<char>, class: CharClass) -> (r: (int, int))
    ensures
        0 <= r.0 <= r.1 <= s.len(),
        strip(s, class) == s.subrange(r.0, r.1),
        forall|j: int| 0 <= j < r.0 ==> class.holds(#[trigger] s[j]),
        forall|j: int| r.1 <= j < s.len() ==> class.holds(#[trigger] s[j]),
        r.0 < r.1 ==> !class.holds(s[r.0]) && !class.holds(s[r.1 - 1]),
{
    let lo = lemma_strip_start(s, class);
    let mid = s.subrange(lo, s.len() as int);
    let k = lemma_strip_end(mid, class);
    assert(mid.subrange(0, k) =~= s.subrange(lo, lo + k));
    assert forall|j: int| lo + k <= j < s.len() implies class.holds(#[trigger] s[j]) by {
        assert(class.holds(mid[j - lo]));
    }
    if k > 0 {
        assert(mid[k - 1] == s[lo + k - 1]);
    }
    (lo, lo + k)
}

/// Characters of numbers are no borders.
proof fn lemma_numeric_has_no_border(s: Seq<char>, i: int)
    requires
        is_numeric(s),
        0 <= i < s.len(),
    ensures
        !CharClass::Border.holds(s[i]),
{
    if s == seq!['N', '/', 'A'] {
        assert(s[0] == 'N' && s[1] == '/' && s[2] == 'A');
    }
}

/// Whether the text `s` has only space and borders before `i` and from `j` on.
pub open spec fn is_bare_outside(s: Seq<char>, i: int, j: int) -> bool {
    forall|k: int|
        0 <= k < i || j <= k < s.len() ==> CharClass::Space.holds(#[trigger] s[k])
            || CharClass::Border.holds(s[k])
}

/// The inner text of a text is a stretch of it, with only space and borders around it.
proof fn lemma_inner(s: Seq<char>) -> (r: (int, int))
    ensures
        0 <= r.0 <= r.1 <= s.len(),
        inner(s) == s.subrange(r.0, r.1),
        is_bare_outside(s, r.0, r.1),
        r.0 < r.1 ==> !CharClass::Space.holds(s[r.0]) && !CharClass::Space.holds(s[r.1 - 1]),
{
    let t = strip(s, CharClass::Space);
    let u = strip(t, CharClass::Border);
    let (a0, a1) = lemma_strip(s, CharClass::Space);
    let (b0, b1) = lemma_strip(t, CharClass::Border);
    let (c0, c1) = lemma_strip(u, CharClass::Space);
    assert(u.subrange(c0, c1) =~= s.subrange(a0 + b0 + c0, a0 + b0 + c1));
    if c0 < c1 {
        assert(u[c0] == s[a0 + b0 + c0]);
        assert(u[c1 - 1] == s[a0 + b0 + c1 - 1]);
    }
    assert forall|k: int| 0 <= k < a0 + b0 + c0 || a0 + b0 + c1 <= k < s.len() implies {
        CharClass::Space.holds(#[trigger] s[k]) || CharClass::Border.holds(s[k])
    } by {
        if a0 <= k < a1 {
            assert(t[k - a0] == s[k]);
            if a0 + b0 <= k < a0 + b1 {
                assert(u[k - a0 - b0] == s[k]);
            }
        }
    }
    (a0 + b0 + c0, a0 + b0 + c1)
}

/// A cleaned text is a stretch of the text it came from: nothing is added, nothing is
/// taken out of the middle, and only space and borders are taken off the ends.
pub proof fn law_cleaned_is_a_stretch(s: Seq<char>)
    ensures
        exists|i: int, j: int|
            0 <= i <= j <= s.len() && cleaned(s) == #[trigger] s.subrange(i, j)
                && is_bare_outside(s, i, j),
{
    let (a, b) = lemma_inner(s);
    let (c, d) = lemma_strip(s, CharClass::Space);
    if cleaned(s) == inner(s) {
        assert(cleaned(s) == s.subrange(a, b));
    } else {
        assert(cleaned(s) == s.subrange(c, d));
    }
}

/// A cleaned text has no space at its ends.
pub proof fn law_cleaned_has_no_outer_space(s: Seq<char>)
    ensures
        cleaned(s).len() > 0 ==> !CharClass::Space.holds(cleaned(s).first())
            && !CharClass::Space.holds(cleaned(s).last()),
{
    let (a, b) = lemma_inner(s);
    let (c, d) = lemma_strip(s, CharClass::Space);
}

/// A text is cleaned away altogether only where it is all space.
pub proof fn law_cleaned_is_empty_for_space_alone(s: Seq<char>)
    ensures
        cleaned(s).len() == 0 <==> forall|i: int|
            0 <= i < s.len() ==> CharClass::Space.holds(#[trigger] s[i]),
{
    let (c, d) = lemma_strip(s, CharClass::Space);
    let (a, b) = lemma_inner(s);
    if inner(s).len() > 0 {
        assert(!CharClass::Space.holds(s[a]));
    }
}

/// More than outer space is taken off only where what is left reads as a number cell,
/// and then no border is left in it.
pub proof fn law_only_numbers_lose_borders(s: Seq<char>)
    ensures
        cleaned(s) != strip(s, CharClass::Space) ==> is_numeric(cleaned(s)),
        is_numeric(cleaned(s)) ==> forall|i: int|
            0 <= i < cleaned(s).len() ==> !CharClass::Border.holds(#[trigger] cleaned(s)[i]),
{
    if is_numeric(cleaned(s)) {
        assert forall|i: int| 0 <= i < cleaned(s).len() implies !CharClass::Border.holds(
            #[trigger] cleaned(s)[i],
        ) by {
            lemma_numeric_has_no_border(cleaned(s), i);
        }
    }
}

/// Cleaning a cleaned text changes nothing.
pub proof fn law_cleaning_settles(s: Seq<char>)
    ensures
        cleaned(cleaned(s)) == cleaned(s),
{
    let r = cleaned(s);
    let (a, b) = lemma_inner(s);
    let (c, d) = lemma_strip(s, CharClass::Space);
    law_cleaned_has_no_outer_space(s);
    lemma_settled(r, CharClass::Space);
    if inner(s).len() > 0 && is_numeric(inner(s)) {
        lemma_numeric_has_no_border(r, 0);
        lemma_numeric_has_no_border(r, r.len() - 1);
        lemma_settled(r, CharClass::Border);
    }
}

/// A text whose ends are not of `class` stays as it is.
proof fn lemma_settled(s: Seq<char>, class: CharClass)
    requires
        s.len() > 0 ==> !class.holds(s.first()) && !class.holds(s.last()),
    ensures
        strip(s, class) == s,
{
}

proof fn lemma_strip_start_of_joined(a: Seq<char>, x: Seq<char>, class: CharClass)
    requires
        forall|i: int| 0 <= i < a.len() ==> class.holds(#[trigger] a[i]),
    ensures
        strip_start(a + x, class) == strip_start(x, class),
    decreases a.len(),
{
    if a.len() == 0 {
        assert(a + x =~= x);
    } else {
        let rest = a.drop_first();
        assert((a + x).first() == a[0]);
        assert((a + x).drop_first() =~= rest + x);
        assert forall|i: int| 0 <= i < rest.len() implies class.holds(#[trigger] rest[i]) by {
            assert(class.holds(a[i + 1]));
        }
        lemma_strip_start_of_joined(rest, x, class);
    }
}

proof fn lemma_strip_end_of_joined(x: Seq<char>, b: Seq<char>, class: CharClass)
    requires
        forall|i: int| 0 <= i < b.len() ==> class.holds(#[trigger] b[i]),
    ensures
        strip_end(x + b, class) == strip_end(x, class),
    decreases b.len(),
{
    if b.len() == 0 {
        assert(x + b =~= x);
    } else {
        let rest = b.drop_last();
        assert((x + b).last() == b[b.len() - 1]);
        assert((x + b).drop_last() =~= x + rest);
        assert forall|i: int| 0 <= i < rest.len() implies class.holds(#[trigger] rest[i]) by {
            assert(class.holds(b[i]));
        }
        lemma_strip_end_of_joined(x, rest, class);
    }
}

/// Borders misread around a number cell go: whatever bars and brackets stand before and
/// after it, what is left is the content.
pub proof fn law_borders_around_numbers_go(before: Seq<char>, number: Seq<char>, after: Seq<char>)
    requires
        forall|i: int| 0 <= i < before.len() ==> CharClass::Border.holds(#[trigger] before[i]),
        forall|i: int| 0 <= i < after.len() ==> CharClass::Border.holds(#[trigger] after[i]),
        is_numeric(number),
        number.len() > 0,
        !CharClass::Space.holds(number.first()),
        !CharClass::Space.holds(number.last()),
    ensures
        cleaned(before + number + after) == number,
{
    let s = before + number + after;
    assert(s.first() == if before.len() > 0 {
        before[0]
    } else {
        number.first()
    });
    assert(s.last() == if after.len() > 0 {
        after[after.len() - 1]
    } else {
        number.last()
    });
    lemma_settled(s, CharClass::Space);
    assert(s =~= before + (number + after));
    lemma_strip_start_of_joined(before, number + after, CharClass::Border);
    lemma_numeric_has_no_border(number, 0);
    lemma_numeric_has_no_border(number, number.len() - 1);
    assert((number + after).first() == number.first());
    lemma_strip_end_of_joined(number, after, CharClass::Border);
    lemma_settled(number, CharClass::Space);
}

/// White space is what Unicode calls so: 25 characters, and no others.
pub proof fn law_space_is_white_space(c: char)
    ensures
        CharClass::Space.holds(c) <==> {
            ||| c == '\u{9}' || c == '\u{a}' || c == '\u{b}' || c == '\u{c}' || c == '\u{d}'
            ||| c == '\u{20}' || c == '\u{85}' || c == '\u{a0}' || c == '\u{1680}'
            ||| c == '\u{2000}' || c == '\u{2001}' || c == '\u{2002}' || c == '\u{2003}'
            ||| c == '\u{2004}' || c == '\u{2005}' || c == '\u{2006}' || c == '\u{2007}'
            ||| c == '\u{2008}' || c == '\u{2009}' || c == '\u{200a}' || c == '\u{2028}'
            ||| c == '\u{2029}' || c == '\u{202f}' || c == '\u{205f}' || c == '\u{3000}'
        },
{
}

/// Borders are misread as bars and brackets, and as nothing else.
pub proof fn law_borders_are_bars_and_brackets(c: char)
    ensures
        CharClass::Border.holds(c) <==> c == '|' || c == '[' || c == ']' || c == '(' || c == ')'
            || c == '{' || c == '}',
{
}

/// Stripping takes off exactly what belongs to the class: a text that neither starts nor
/// ends in such a character comes out whole, whatever of the class stands around it.
pub proof fn law_stripping_leaves_the_middle(
    a: Seq<char>,
    x: Seq<char>,
    b: Seq<char>,
    class: CharClass,
)
    requires
        forall|i: int| 0 <= i < a.len() ==> class.holds(#[trigger] a[i]),
        forall|i: int| 0 <= i < b.len() ==> class.holds(#[trigger] b[i]),
        x.len() > 0 ==> !class.holds(x.first()) && !class.holds(x.last()),
    ensures
        strip(a + x + b, class) == x,
{
    assert(a + x + b =~= a + (x + b));
    lemma_strip_start_of_joined(a, x + b, class);
    if x.len() > 0 {
        assert((x + b).first() == x.first());
        lemma_strip_end_of_joined(x, b, class);
    } else {
        assert(x + b =~= b + x);
        lemma_strip_start_of_joined(b, x, class);
    }
}

/// What stands between borders, with or without space around it and them, is the inner
/// text of the whole.
proof fn lemma_inner_of_framed(
    sp1: Seq<char>,
    b1: Seq<char>,
    sp2: Seq<char>,
    m: Seq<char>,
    sp3: Seq<char>,
    b2: Seq<char>,
    sp4: Seq<char>,
)
    requires
        forall|i: int| 0 <= i < sp1.len() ==> CharClass::Space.holds(#[trigger] sp1[i]),
        forall|i: int| 0 <= i < b1.len() ==> CharClass::Border.holds(#[trigger] b1[i]),
        forall|i: int| 0 <= i < sp2.len() ==> CharClass::Space.holds(#[trigger] sp2[i]),
        forall|i: int| 0 <= i < sp3.len() ==> CharClass::Space.holds(#[trigger] sp3[i]),
        forall|i: int| 0 <= i < b2.len() ==> CharClass::Border.holds(#[trigger] b2[i]),
        forall|i: int| 0 <= i < sp4.len() ==> CharClass::Space.holds(#[trigger] sp4[i]),
        m.len() > 0,
        !CharClass::Space.holds(m.first()),
        !CharClass::Space.holds(m.last()),
        b1.len() == 0 ==> sp2.len() == 0,
        b2.len() == 0 ==> sp3.len() == 0,
        sp2.len() == 0 ==> !CharClass::Border.holds(m.first()),
        sp3.len() == 0 ==> !CharClass::Border.holds(m.last()),
    ensures
        strip(sp1 + (b1 + (sp2 + m + sp3) + b2) + sp4, CharClass::Space) == b1 + (sp2 + m + sp3)
            + b2,
        inner(sp1 + (b1 + (sp2 + m + sp3) + b2) + sp4) == m,
{
    let v = sp2 + m + sp3;
    let t = b1 + v + b2;
    assert(v.first() == if sp2.len() > 0 {
        sp2[0]
    } else {
        m.first()
    });
    assert(v.last() == if sp3.len() > 0 {
        sp3[sp3.len() - 1]
    } else {
        m.last()
    });
    assert(t.first() == if b1.len() > 0 {
        b1[0]
    } else {
        v.first()
    });
    assert(t.last() == if b2.len() > 0 {
        b2[b2.len() - 1]
    } else {
        v.last()
    });
    law_stripping_leaves_the_middle(sp1, t, sp4, CharClass::Space);
    law_stripping_leaves_the_middle(b1, v, b2, CharClass::Border);
    law_stripping_leaves_the_middle(sp2, m, sp3, CharClass::Space);
}

/// Number cells come out bare. A text that has nothing but the ten digits, commas, full
/// stops, spaces, percent, minus and plus signs, asterisks and slashes in it, and no space
/// at its ends, loses all bars and brackets around it and all space around it and them.
/// So do `N/A` and `Z`.
pub proof fn law_number_cells_come_out_bare(
    sp1: Seq<char>,
    b1: Seq<char>,
    sp2: Seq<char>,
    m: Seq<char>,
    sp3: Seq<char>,
    b2: Seq<char>,
    sp4: Seq<char>,
)
    requires
        forall|i: int| 0 <= i < sp1.len() ==> CharClass::Space.holds(#[trigger] sp1[i]),
        forall|i: int| 0 <= i < sp2.len() ==> CharClass::Space.holds(#[trigger] sp2[i]),
        forall|i: int| 0 <= i < sp3.len() ==> CharClass::Space.holds(#[trigger] sp3[i]),
        forall|i: int| 0 <= i < sp4.len() ==> CharClass::Space.holds(#[trigger] sp4[i]),
        forall|i: int|
            0 <= i < b1.len() ==> {
                let c = #[trigger] b1[i];
                c == '|' || c == '[' || c == ']' || c == '(' || c == ')' || c == '{' || c == '}'
            },
        forall|i: int|
            0 <= i < b2.len() ==> {
                let c = #[trigger] b2[i];
                c == '|' || c == '[' || c == ']' || c == '(' || c == ')' || c == '{' || c == '}'
            },
        m.len() > 0,
        m.first() != ' ',
        m.last() != ' ',
        ({
            ||| m == seq!['N', '/', 'A']
            ||| m == seq!['Z']
            ||| forall|i: int|
                0 <= i < m.len() ==> {
                    let c = #[trigger] m[i];
                    ||| c == '0' || c == '1' || c == '2' || c == '3' || c == '4'
                    ||| c == '5' || c == '6' || c == '7' || c == '8' || c == '9'
                    ||| c == ',' || c == '.' || c == ' ' || c == '%'
                    ||| c == '-' || c == '+' || c == '*' || c == '/'
                }
        }),
    ensures
        cleaned(sp1 + b1 + sp2 + m + sp3 + b2 + sp4) == m,
{
    let s = sp1 + b1 + sp2 + m + sp3 + b2 + sp4;
    if m == seq!['N', '/', 'A'] {
        assert(m.len() == 3 && m[0] == 'N' && m[2] == 'A');
    } else if m == seq!['Z'] {
        assert(m.len() == 1 && m[0] == 'Z');
    } else {
        assert forall|i: int| 0 <= i < m.len() implies is_numeric_char(#[trigger] m[i]) by {}
    }
    assert(m.first() == m[0] && m.last() == m[m.len() - 1]);
    let none = Seq::<char>::empty();
    // Without borders between them, the inner space is outer space.
    let (l1, l2) = if b1.len() == 0 {
        (sp1 + sp2, none)
    } else {
        (sp1, sp2)
    };
    let (r1, r2) = if b2.len() == 0 {
        (none, sp3 + sp4)
    } else {
        (sp3, sp4)
    };
    lemma_inner_of_framed(l1, b1, l2, m, r1, b2, r2);
    assert(s =~= l1 + (b1 + (l2 + m + r1) + b2) + r2);
}

/// Other text is left alone but for the space around it: where, within the bars and
/// brackets at its ends and the space inside those, something stands that is neither made
/// of the characters of numbers alone nor `N/A` nor `Z`, the bars and brackets stay.
pub proof fn law_other_text_keeps_its_borders(
    sp1: Seq<char>,
    b1: Seq<char>,
    sp2: Seq<char>,
    m: Seq<char>,
    sp3: Seq<char>,
    b2: Seq<char>,
    sp4: Seq<char>,
    k: int,
)
    requires
        forall|i: int| 0 <= i < sp1.len() ==> CharClass::Space.holds(#[trigger] sp1[i]),
        forall|i: int| 0 <= i < sp2.len() ==> CharClass::Space.holds(#[trigger] sp2[i]),
        forall|i: int| 0 <= i < sp3.len() ==> CharClass::Space.holds(#[trigger] sp3[i]),
        forall|i: int| 0 <= i < sp4.len() ==> CharClass::Space.holds(#[trigger] sp4[i]),
        forall|i: int|
            0 <= i < b1.len() ==> {
                let c = #[trigger] b1[i];
                c == '|' || c == '[' || c == ']' || c == '(' || c == ')' || c == '{' || c == '}'
            },
        forall|i: int|
            0 <= i < b2.len() ==> {
                let c = #[trigger] b2[i];
                c == '|' || c == '[' || c == ']' || c == '(' || c == ')' || c == '{' || c == '}'
            },
        b1.len() == 0 ==> sp2.len() == 0,
        b2.len() == 0 ==> sp3.len() == 0,
        m.len() > 0,
        !CharClass::Space.holds(m.first()),
        !CharClass::Space.holds(m.last()),
        sp2.len() == 0 ==> ({
            let c = m.first();
            c != '|' && c != '[' && c != ']' && c != '(' && c != ')' && c != '{' && c != '}'
        }),
        sp3.len() == 0 ==> ({
            let c = m.last();
            c != '|' && c != '[' && c != ']' && c != '(' && c != ')' && c != '{' && c != '}'
        }),
        m != seq!['N', '/', 'A'],
        m != seq!['Z'],
        0 <= k < m.len(),
        ({
            let c = m[k];
            &&& c != '0' && c != '1' && c != '2' && c != '3' && c != '4'
            &&& c != '5' && c != '6' && c != '7' && c != '8' && c != '9'
            &&& c != ',' && c != '.' && c != ' ' && c != '%'
            &&& c != '-' && c != '+' && c != '*' && c != '/'
        }),
    ensures
        cleaned(sp1 + b1 + sp2 + m + sp3 + b2 + sp4) == b1 + sp2 + m + sp3 + b2,
{
    let s = sp1 + b1 + sp2 + m + sp3 + b2 + sp4;
    let t = b1 + (sp2 + m + sp3) + b2;
    lemma_inner_of_framed(sp1, b1, sp2, m, sp3, b2, sp4);
    assert(s =~= sp1 + t + sp4);
    assert(t =~= b1 + sp2 + m + sp3 + b2);
    assert(!is_numeric_char(m[k]));
    if m == seq!['-'] {
        assert(m.len() == 1 && m[0] == '-');
    }
}

/// Text of bars, brackets and space alone keeps them all, but for the space around it.
pub proof fn law_borders_alone_stay(sp1: Seq<char>, t: Seq<char>, sp2: Seq<char>)
    requires
        forall|i: int| 0 <= i < sp1.len() ==> CharClass::Space.holds(#[trigger] sp1[i]),
        forall|i: int| 0 <= i < sp2.len() ==> CharClass::Space.holds(#[trigger] sp2[i]),
        forall|i: int|
            0 <= i < t.len() ==> {
                let c = #[trigger] t[i];
                ||| CharClass::Space.holds(c)
                ||| c == '|' || c == '[' || c == ']' || c == '(' || c == ')' || c == '{' || c == '}'
            },
        t.len() > 0 ==> !CharClass::Space.holds(t.first()) && !CharClass::Space.holds(t.last()),
    ensures
        cleaned(sp1 + t + sp2) == t,
{
    let s = sp1 + t + sp2;
    law_stripping_leaves_the_middle(sp1, t, sp2, CharClass::Space);
    let (a, b) = lemma_strip(t, CharClass::Border);
    let u = strip(t, CharClass::Border);
    let (c, d) = lemma_strip(u, CharClass::Space);
    let m = inner(s);
    assert(m == u.subrange(c, d));
    if m.len() > 0 {
        // What is left starts with a border, which no number has.
        assert(m[0] == u[c] && u[c] == t[a + c]);
        assert(CharClass::Border.holds(m[0]));
        if is_numeric(m) {
            lemma_numeric_has_no_border(m, 0);
        }
    }
}

} // verus!
