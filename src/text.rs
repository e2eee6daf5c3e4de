//! Counting and transforming the text held by a string processor.
use vstd::prelude::*;

verus! {

/// Unicode's White_Space property.
pub open spec fn is_ws(c: char) -> bool {
    let u = c as u32;
    (0x9 <= u && u <= 0xd) || u == 0x20 || u == 0x85 || u == 0xa0 || u == 0x1680 || (0x2000 <= u && u
        <= 0x200a) || u == 0x2028 || u == 0x2029 || u == 0x202f || u == 0x205f || u == 0x3000
}

/// The number of maximal runs of non-whitespace characters.
pub open spec fn word_count_of(s: Seq<char>) -> nat
    decreases s.len(),
{
    if s.len() == 0 {
        0
    } else {
        let starts = !is_ws(s.last()) && (s.len() == 1 || is_ws(s[s.len() - 2]));
        word_count_of(s.drop_last()) + if starts { 1nat } else { 0nat }
    }
}

/// The number of line feeds.
pub open spec fn newline_count(s: Seq<char>) -> nat
    decreases s.len(),
{
    if s.len() == 0 {
        0
    } else {
        newline_count(s.drop_last()) + if s.last() == '\n' { 1nat } else { 0nat }
    }
}

/// The number of lines: a line ends at a line feed, and a last line need not.
pub open spec fn line_count_of(s: Seq<char>) -> nat {
    newline_count(s) + if s.len() > 0 && s.last() != '\n' { 1nat } else { 0nat }
}

/// The upper-case form of a text.
pub uninterp spec fn upper_of(s: Seq<char>) -> Seq<char>;

/// The lower-case form of a text.
pub uninterp spec fn lower_of(s: Seq<char>) -> Seq<char>;

/// Relies on str::to_uppercase: the result depends on the characters alone.
#[verifier::external_body]
fn uppercase(s: &str) -> (r: String)
    ensures
        r@ == upper_of(s@),
{
    s.to_uppercase()
}

/// Relies on str::to_lowercase: the result depends on the characters alone.
#[verifier::external_body]
pub(crate) fn lowercase(s: &str) -> (r: String)
    ensures
        r@ == lower_of(s@),
{
    s.to_lowercase()
}

/// Relies on collecting chars into a String: the characters, in order.
#[verifier::external_body]
pub(crate) fn string_of(v: &Vec<char>) -> (r: String)
    ensures
        r@ == v@,
{
    v.iter().collect()
}

/// Whether `c` is whitespace in Unicode's sense.
pub fn is_whitespace(c: char) -> (r: bool)
    ensures
        r == is_ws(c),
{
    let u = c as u32;
    (0x9 <= u && u <= 0xd) || u == 0x20 || u == 0x85 || u == 0xa0 || u == 0x1680 || (0x2000 <= u && u <= 0x200a)
        || u == 0x2028 || u == 0x2029 || u == 0x202f || u == 0x205f || u == 0x3000
}

/// The characters of `s`.
pub fn chars_of(s: &str) -> (r: Vec<char>)
    ensures
        r@ == s@,
{
    let mut r: Vec<char> = Vec::new();
    for c in it: s.chars()
        invariant
            it.seq() == s@,
            r@ == it.seq().take(it.index() as int),
    {
        proof {
            assert(it.seq().take(it.index() + 1) =~= r@.push(c));
        }
        r.push(c);
    }
    proof {
        assert(r@ =~= s@);
    }
    r
}

/// The number of words, separated by whitespace.
pub fn count_words_in(s: &str) -> (r: usize)
    ensures
        r == word_count_of(s@),
{
    let cs = chars_of(s);
    let mut count: usize = 0;
    let mut i: usize = 0;
    while i < cs.len()
        invariant
            0 <= i <= cs@.len(),
            count == word_count_of(cs@.take(i as int)),
            count <= i,
        decreases cs@.len() - i,
    {
        proof {
            let p = cs@.take(i + 1);
            assert(p.drop_last() =~= cs@.take(i as int));
            assert(p.last() == cs@[i as int]);
            if i > 0 {
                assert(p[p.len() - 2] == cs@[i - 1]);
            }
        }
        if !is_whitespace(cs[i]) && (i == 0 || is_whitespace(cs[i - 1])) {
            count = count + 1;
        }
        i = i + 1;
    }
    proof {
        assert(cs@.take(cs@.len() as int) =~= cs@);
    }
    count
}

/// The number of lines.
pub fn count_lines_in(s: &str) -> (r: usize)
    ensures
        r == line_count_of(s@),
{
    let cs = chars_of(s);
    let mut count: usize = 0;
    let mut i: usize = 0;
    while i < cs.len()
        invariant
            0 <= i <= cs@.len(),
            count == newline_count(cs@.take(i as int)),
            count <= i,
        decreases cs@.len() - i,
    {
        proof {
            let p = cs@.take(i + 1);
            assert(p.drop_last() =~= cs@.take(i as int));
            assert(p.last() == cs@[i as int]);
        }
        if cs[i] == '\n' {
            count = count + 1;
        }
        i = i + 1;
    }
    proof {
        assert(cs@.take(cs@.len() as int) =~= cs@);
    }
    if cs.len() > 0 && cs[cs.len() - 1] != '\n' {
        proof {
            lemma_newline_count_bounded(cs@.drop_last());
        }
        count = count + 1;
    }
    count
}

proof fn lemma_newline_count_bounded(s: Seq<char>)
    ensures
        newline_count(s) <= s.len(),
    decreases s.len(),
{
    if s.len() > 0 {
        lemma_newline_count_bounded(s.drop_last());
    }
}

/// Holds a text and counts or rewrites it.
pub struct StringProcessor {
    pub content: String,
}

impl StringProcessor {
    /// A processor holding `content`.
    pub fn new(content: String) -> (r: Self)
        ensures
            r.content@ == content@,
    {
        StringProcessor { content }
    }

    /// The number of words, separated by whitespace.
    pub fn count_words(&self) -> (r: usize)
        ensures
            r == word_count_of(self.content@),
    {
        count_words_in(self.content.as_str())
    }

    /// The number of lines.
    pub fn count_lines(&self) -> (r: usize)
        ensures
            r == line_count_of(self.content@),
    {
        count_lines_in(self.content.as_str())
    }

    /// The number of characters.
    pub fn count_chars(&self) -> (r: usize)
        ensures
            r == self.content@.len(),
    {
        chars_of(self.content.as_str()).len()
    }

    /// Replaces the text by its upper-case form.
    pub fn to_uppercase(&mut self)
        ensures
            final(self).content@ == upper_of(old(self).content@),
    {
        self.content = uppercase(self.content.as_str());
    }

    /// Replaces the text by its lower-case form.
    pub fn to_lowercase(&mut self)
        ensures
            final(self).content@ == lower_of(old(self).content@),
    {
        self.content = lowercase(self.content.as_str());
    }

    /// Reverses the order of the characters.
    pub fn reverse(&mut self)
        ensures
            final(self).content@ == old(self).content@.reverse(),
    {
        let cs = chars_of(self.content.as_str());
        let mut out: Vec<char> = Vec::new();
        let mut i: usize = cs.len();
        while i > 0
            invariant
                0 <= i <= cs@.len(),
                out@ == cs@.skip(i as int).reverse(),
            decreases i,
        {
            proof {
                assert(cs@.skip(i - 1).reverse() =~= cs@.skip(i as int).reverse().push(cs@[i - 1]));
            }
            out.push(cs[i - 1]);
            i = i - 1;
        }
        proof {
            assert(cs@.skip(0) =~= cs@);
        }
        self.content = string_of(&out);
    }
}

/// The upper-case form of a character, as its first character when the
/// mapping yields several.
pub uninterp spec fn upper_char_of(c: char) -> char;

/// Relies on char::to_uppercase: the first character of the upper-case
/// mapping, which is never empty.
#[verifier::external_body]
fn upper_char(c: char) -> (r: char)
    ensures
        r == upper_char_of(c),
{
    c.to_uppercase().next().unwrap_or(c)
}

/// `s` with underscores removed and the first letter of each part in upper
/// case; `capitalize` says whether the first character starts a part.
pub open spec fn pascal_of(s: Seq<char>, capitalize: bool) -> Seq<char>
    decreases s.len(),
{
    if s.len() == 0 {
        s
    } else if s[0] == '_' {
        pascal_of(s.drop_first(), true)
    } else if capitalize {
        seq![upper_char_of(s[0])] + pascal_of(s.drop_first(), false)
    } else {
        seq![s[0]] + pascal_of(s.drop_first(), false)
    }
}

/// Turns identifiers from one naming style into another.
pub struct CodeGenerator;

impl CodeGenerator {
    /// `snake_case` to `PascalCase`: underscores are dropped and the
    /// character after each, like the first, is put in upper case.
    pub fn to_pascal_case(s: &str) -> (r: String)
        ensures
            r@ == pascal_of(s@, true),
    {
        let cs = chars_of(s);
        let mut out: Vec<char> = Vec::new();
        let mut capitalize = true;
        let mut i: usize = 0;
        proof {
            assert(cs@.skip(0) =~= cs@);
            assert(out@ + pascal_of(cs@, true) =~= pascal_of(cs@, true));
        }
        while i < cs.len()
            invariant
                0 <= i <= cs@.len(),
                out@ + pascal_of(cs@.skip(i as int), capitalize) == pascal_of(cs@, true),
            decreases cs@.len() - i,
        {
            let ghost rest = cs@.skip(i as int);
            proof {
                assert(rest.drop_first() =~= cs@.skip(i + 1));
                assert(rest[0] == cs@[i as int]);
            }
            let c = cs[i];
            if c == '_' {
                capitalize = true;
            } else if capitalize {
                let u = upper_char(c);
                proof {
                    assert(out@.push(u) + pascal_of(cs@.skip(i + 1), false) =~= out@ + (seq![u] + pascal_of(
                        cs@.skip(i + 1),
                        false,
                    )));
                }
                out.push(u);
                capitalize = false;
            } else {
                proof {
                    assert(out@.push(c) + pascal_of(cs@.skip(i + 1), false) =~= out@ + (seq![c] + pascal_of(
                        cs@.skip(i + 1),
                        false,
                    )));
                }
                out.push(c);
            }
            i = i + 1;
        }
        proof {
            assert(cs@.skip(cs@.len() as int) =~= Seq::<char>::empty());
            assert(out@ + Seq::<char>::empty() =~= out@);
        }
        string_of(&out)
    }

    /// Identifiers are already written in `snake_case`: the text unchanged.
    pub fn to_snake_case(s: &str) -> (r: String)
        ensures
            r@ == s@,
    {
        s.to_owned()
    }
}

} // verus!
