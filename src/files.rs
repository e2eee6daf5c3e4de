//! Statistics about the contents of a text file.
use vstd::prelude::*;
use vstd::utf8::{encode_scalar, encode_utf8};

use crate::text::{chars_of, count_words_in, is_whitespace, is_ws, word_count_of};

verus! {

/// The extension of a file name: what follows its last dot, when there is one
/// that does not start the name.
pub uninterp spec fn extension_of(name: Seq<char>) -> Option<Seq<char>>;

/// Relies on std::path::Path::extension (and OsStr::to_str, which succeeds on
/// text that came from a `str`).
#[verifier::external_body]
fn file_extension(name: &str) -> (r: Option<String>)
    ensures
        match r {
            Some(e) => extension_of(name@) == Some(e@),
            None => extension_of(name@) is None,
        },
{
    std::path::Path::new(name).extension().and_then(|e| e.to_str()).map(|e| e.to_string())
}

/// Counts describing a text file.
#[derive(Debug)]
pub struct FileStats {
    pub filename: String,
    pub size_bytes: u64,
    pub lines: usize,
    pub words: usize,
    pub characters: usize,
    pub empty_lines: usize,
    pub longest_line: usize,
    pub file_type: String,
}

/// `c` without a final carriage return.
pub open spec fn strip_cr(c: Seq<char>) -> Seq<char> {
    if c.len() > 0 && c.last() == '\r' {
        c.drop_last()
    } else {
        c
    }
}

/// The lines of a text, scanned so far: the finished lines and the line in
/// progress. A line ends at a line feed, which, like a carriage return just
/// before it, is not part of the line.
pub open spec fn scan_lines(s: Seq<char>) -> (Seq<Seq<char>>, Seq<char>)
    decreases s.len(),
{
    if s.len() == 0 {
        (Seq::empty(), Seq::empty())
    } else {
        let (done, cur) = scan_lines(s.drop_last());
        if s.last() == '\n' {
            (done.push(strip_cr(cur)), Seq::empty())
        } else {
            (done, cur.push(s.last()))
        }
    }
}

/// The lines of a text; a last line need not end with a line feed.
pub open spec fn lines_of(s: Seq<char>) -> Seq<Seq<char>> {
    let (done, cur) = scan_lines(s);
    if cur.len() > 0 {
        done.push(cur)
    } else {
        done
    }
}

/// A line of whitespace only.
pub open spec fn is_blank(l: Seq<char>) -> bool {
    forall|i: int| 0 <= i < l.len() ==> is_ws(#[trigger] l[i])
}

/// The number of blank lines.
pub open spec fn blank_count(ls: Seq<Seq<char>>) -> nat
    decreases ls.len(),
{
    if ls.len() == 0 {
        0
    } else {
        blank_count(ls.drop_last()) + if is_blank(ls.last()) { 1nat } else { 0nat }
    }
}

/// The length in bytes of the UTF-8 form of a line.
pub open spec fn byte_len(l: Seq<char>) -> nat {
    encode_utf8(l).len()
}

/// The largest byte length of the lines; 0 when there are none.
pub open spec fn longest_of(ls: Seq<Seq<char>>) -> nat
    decreases ls.len(),
{
    if ls.len() == 0 {
        0
    } else {
        let m = longest_of(ls.drop_last());
        let l = byte_len(ls.last());
        if l > m {
            l
        } else {
            m
        }
    }
}

proof fn lemma_encode_concat(a: Seq<char>, b: Seq<char>)
    ensures
        encode_utf8(a + b) == encode_utf8(a) + encode_utf8(b),
    decreases a.len(),
{
    if a.len() == 0 {
        assert(a + b =~= b);
        assert(encode_utf8(a) =~= Seq::<u8>::empty());
        assert(Seq::<u8>::empty() + encode_utf8(b) =~= encode_utf8(b));
    } else {
        lemma_encode_concat(a.drop_first(), b);
        assert((a + b).drop_first() =~= a.drop_first() + b);
        assert((a + b)[0] == a[0]);
    }
}

proof fn lemma_byte_len_push(c: Seq<char>, x: char)
    ensures
        byte_len(c.push(x)) == byte_len(c) + encode_scalar(x as u32).len(),
{
    lemma_encode_concat(c, seq![x]);
    assert(c.push(x) =~= c + seq![x]);
    assert(seq![x].drop_first() =~= Seq::<char>::empty());
    assert(seq![x][0] == x);
    assert(encode_utf8(Seq::<char>::empty()) =~= Seq::<u8>::empty());
    assert(encode_utf8(seq![x]) == encode_scalar(x as u32) + encode_utf8(Seq::<char>::empty()));
    assert(encode_utf8(seq![x]) =~= encode_scalar(x as u32));
}

/// The number of bytes of the UTF-8 form of `c`.
fn utf8_width(c: char) -> (r: usize)
    ensures
        r == encode_scalar(c as u32).len(),
{
    let u = c as u32;
    if u <= 0x7f {
        1
    } else if u <= 0x7ff {
        2
    } else if u <= 0xffff && !(0xd800 <= u && u <= 0xdfff) {
        3
    } else {
        4
    }
}

impl FileStats {
    /// The statistics of `content`, read from the file `filename`.
    pub fn new(filename: String, content: &str) -> (r: Self)
        ensures
            r.filename@ == filename@,
            r.size_bytes == content.len() as u64,
            r.lines == lines_of(content@).len(),
            r.words == word_count_of(content@),
            r.characters == content@.len(),
            r.empty_lines == blank_count(lines_of(content@)),
            r.longest_line == longest_of(lines_of(content@)),
            extension_of(filename@) is None ==> r.file_type@ == "unknown"@,
            extension_of(filename@) is Some ==> extension_of(filename@) == Some(r.file_type@),
    {
        let cs = chars_of(content);
        let total_bytes = content.as_bytes().len();
        proof {
            lemma_encode_concat(cs@, Seq::<char>::empty());
            assert(cs@ + Seq::<char>::empty() =~= cs@);
        }
        let mut lines: usize = 0;
        let mut blank: usize = 0;
        let mut longest: usize = 0;
        let mut cur_blank = true;
        let mut cur_width: usize = 0;
        let mut cur_ends_cr = false;
        let mut cur_len: usize = 0;
        let ghost mut cur: Seq<char> = Seq::empty();
        let mut i: usize = 0;
        while i < cs.len()
            invariant
                0 <= i <= cs@.len(),
                total_bytes == byte_len(cs@),
                cur == scan_lines(cs@.take(i as int)).1,
                lines == scan_lines(cs@.take(i as int)).0.len(),
                blank == blank_count(scan_lines(cs@.take(i as int)).0),
                longest == longest_of(scan_lines(cs@.take(i as int)).0),
                longest <= total_bytes,
                lines + cur_len <= i,
                blank <= lines,
                cur_len == cur.len(),
                cur_blank == is_blank(cur),
                cur_width == byte_len(cur),
                cur_ends_cr == (cur.len() > 0 && cur.last() == '\r'),
                byte_len(cur) <= byte_len(cs@.take(i as int)),
            decreases cs@.len() - i,
        {
            let c = cs[i];
            let ghost p = cs@.take(i + 1);
            proof {
                assert(p.drop_last() =~= cs@.take(i as int));
                assert(p.last() == c);
                lemma_byte_len_push(cs@.take(i as int), c);
                assert(p == cs@.take(i as int).push(c));
                lemma_encode_concat(p, cs@.skip(i + 1));
                assert(cs@ =~= p + cs@.skip(i + 1));
            }
            if c == '\n' {
                let ghost line = strip_cr(cur);
                let width = if cur_ends_cr {
                    proof {
                        lemma_byte_len_push(cur.drop_last(), '\r');
                        assert(cur.drop_last().push('\r') =~= cur);
                        assert(encode_scalar('\r' as u32).len() == 1);
                    }
                    cur_width - 1
                } else {
                    cur_width
                };
                proof {
                    let d = scan_lines(cs@.take(i as int)).0;
                    assert(d.push(line).drop_last() =~= d);
                    assert(d.push(line).last() == line);
                    assert(is_blank(line) == cur_blank) by {
                        if cur_ends_cr {
                            assert(is_ws('\r'));
                            assert forall|k: int| 0 <= k < line.len() implies #[trigger] line[k] == cur[k] by {
                            }
                        }
                    }
                }
                lines = lines + 1;
                if cur_blank {
                    blank = blank + 1;
                }
                if width > longest {
                    longest = width;
                }
                cur_blank = true;
                cur_width = 0;
                cur_ends_cr = false;
                cur_len = 0;
                proof {
                    cur = Seq::empty();
                    assert(encode_utf8(cur) =~= Seq::<u8>::empty());
                }
            } else {
                let w = utf8_width(c);
                proof {
                    lemma_byte_len_push(cur, c);
                    assert forall|k: int| 0 <= k < cur.len() implies #[trigger] cur.push(c)[k] == cur[k] by {
                    }
                    assert(cur.push(c)[cur.len() as int] == c);
                    assert(is_blank(cur.push(c)) == (is_blank(cur) && is_ws(c))) by {
                        if is_blank(cur) && is_ws(c) {
                            assert forall|k: int| 0 <= k < cur.len() + 1 implies is_ws(#[trigger] cur.push(c)[k]) by {
                                if k < cur.len() {
                                    assert(cur.push(c)[k] == cur[k]);
                                }
                            }
                        }
                        if is_blank(cur.push(c)) {
                            assert(is_ws(cur.push(c)[cur.len() as int]));
                            assert forall|k: int| 0 <= k < cur.len() implies is_ws(#[trigger] cur[k]) by {
                                assert(is_ws(cur.push(c)[k]));
                            }
                        }
                    }
                }
                cur_blank = cur_blank && is_whitespace(c);
                cur_width = cur_width + w;
                cur_ends_cr = c == '\r';
                cur_len = cur_len + 1;
                proof {
                    cur = cur.push(c);
                }
            }
            i = i + 1;
        }
        proof {
            assert(cs@.take(cs@.len() as int) =~= cs@);
        }
        if cur_len > 0 {
            proof {
                let d = scan_lines(cs@).0;
                assert(d.push(cur).drop_last() =~= d);
                assert(d.push(cur).last() == cur);
            }
            lines = lines + 1;
            if cur_blank {
                blank = blank + 1;
            }
            if cur_width > longest {
                longest = cur_width;
            }
        }
        let file_type = match file_extension(filename.as_str()) {
            Some(e) => e,
            None => "unknown".to_owned(),
        };
        FileStats {
            filename,
            size_bytes: content.len() as u64,
            lines,
            words: count_words_in(content),
            characters: cs.len(),
            empty_lines: blank,
            longest_line: longest,
            file_type,
        }
    }
}

} // verus!
