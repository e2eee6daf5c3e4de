//! Word frequencies of a text, case-insensitively.
use std::collections::HashMap;

use vstd::prelude::*;

use crate::text::{chars_of, is_whitespace, is_ws, lower_of, lowercase, string_of, StringProcessor};

verus! {

/// Relies on collecting distinct keys into a std HashMap: every pair is an
/// entry, and there is no other entry.
#[verifier::external_body]
fn into_map(pairs: Vec<(String, usize)>) -> (r: HashMap<String, usize>)
    requires
        forall|i: int, j: int|
            0 <= i < pairs@.len() && 0 <= j < pairs@.len() && i != j ==> (#[trigger] pairs@[i]).0@
                != (#[trigger] pairs@[j]).0@,
    ensures
        forall|i: int|
            0 <= i < pairs@.len() ==> r@.contains_key((#[trigger] pairs@[i]).0) && r@[pairs@[i].0]
                == pairs@[i].1,
        forall|k: String| r@.contains_key(k) ==> exists|i: int| 0 <= i < pairs@.len() && (#[trigger] pairs@[i]).0 == k,
{
    pairs.into_iter().collect()
}

/// The words of a text, scanned so far: the finished words and the word in
/// progress.
pub open spec fn scan_words(s: Seq<char>) -> (Seq<Seq<char>>, Seq<char>)
    decreases s.len(),
{
    if s.len() == 0 {
        (Seq::empty(), Seq::empty())
    } else {
        let (done, cur) = scan_words(s.drop_last());
        if is_ws(s.last()) {
            if cur.len() > 0 {
                (done.push(cur), Seq::empty())
            } else {
                (done, cur)
            }
        } else {
            (done, cur.push(s.last()))
        }
    }
}

/// The maximal runs of non-whitespace characters, in order.
pub open spec fn words_of(s: Seq<char>) -> Seq<Seq<char>> {
    let (done, cur) = scan_words(s);
    if cur.len() > 0 {
        done.push(cur)
    } else {
        done
    }
}

/// Each word in lower case.
pub open spec fn lowered(ws: Seq<Seq<char>>) -> Seq<Seq<char>>
    decreases ws.len(),
{
    if ws.len() == 0 {
        ws
    } else {
        lowered(ws.drop_last()).push(lower_of(ws.last()))
    }
}

/// How often `w` occurs in `ws`.
pub open spec fn count_in(ws: Seq<Seq<char>>, w: Seq<char>) -> nat
    decreases ws.len(),
{
    if ws.len() == 0 {
        0
    } else {
        count_in(ws.drop_last(), w) + if ws.last() == w { 1nat } else { 0nat }
    }
}

proof fn lemma_count_le_len(ws: Seq<Seq<char>>, w: Seq<char>)
    ensures
        count_in(ws, w) <= ws.len(),
    decreases ws.len(),
{
    if ws.len() > 0 {
        lemma_count_le_len(ws.drop_last(), w);
    }
}

/// The lower-cased words of `s`.
fn lowered_words(s: &str) -> (r: Vec<String>)
    ensures
        r@.len() == lowered(words_of(s@)).len(),
        forall|i: int| 0 <= i < r@.len() ==> (#[trigger] r@[i])@ == lowered(words_of(s@))[i],
{
    let cs = chars_of(s);
    let mut out: Vec<String> = Vec::new();
    let mut cur: Vec<char> = Vec::new();
    let mut i: usize = 0;
    while i < cs.len()
        invariant
            0 <= i <= cs@.len(),
            cur@ == scan_words(cs@.take(i as int)).1,
            out@.len() == lowered(scan_words(cs@.take(i as int)).0).len(),
            forall|j: int| 0 <= j < out@.len() ==> (#[trigger] out@[j])@ == lowered(scan_words(cs@.take(i as int)).0)[j],
        decreases cs@.len() - i,
    {
        let ghost p = cs@.take(i + 1);
        proof {
            assert(p.drop_last() =~= cs@.take(i as int));
            assert(p.last() == cs@[i as int]);
        }
        if is_whitespace(cs[i]) {
            if cur.len() > 0 {
                let w = lowercase(string_of(&cur).as_str());
                proof {
                    let d = scan_words(cs@.take(i as int)).0;
                    assert(d.push(cur@).drop_last() =~= d);
                }
                out.push(w);
                cur = Vec::new();
            }
        } else {
            cur.push(cs[i]);
        }
        i = i + 1;
    }
    proof {
        assert(cs@.take(cs@.len() as int) =~= cs@);
    }
    if cur.len() > 0 {
        let w = lowercase(string_of(&cur).as_str());
        proof {
            let d = scan_words(cs@).0;
            assert(d.push(cur@).drop_last() =~= d);
        }
        out.push(w);
    }
    out
}

/// How often each word of `s` occurs, ignoring case: the words are the runs
/// of non-whitespace characters, each put in lower case.
pub fn word_count(s: &str) -> (r: HashMap<String, usize>)
    ensures
        forall|k: String| #[trigger] r@.contains_key(k) ==> r@[k] == count_in(lowered(words_of(s@)), k@) && r@[k] > 0,
        forall|w: Seq<char>|
            #[trigger] count_in(lowered(words_of(s@)), w) > 0 ==> exists|k: String| k@ == w && #[trigger] r@.contains_key(k),
{
    let words = lowered_words(s);
    let ghost ws = lowered(words_of(s@));
    let mut pairs: Vec<(String, usize)> = Vec::new();
    let mut i: usize = 0;
    while i < words.len()
        invariant
            0 <= i <= words@.len(),
            words@.len() == ws.len(),
            forall|j: int| 0 <= j < words@.len() ==> (#[trigger] words@[j])@ == ws[j],
            forall|j: int| 0 <= j < pairs@.len() ==> (#[trigger] pairs@[j]).1 == count_in(ws.take(i as int), pairs@[j].0@),
            forall|j: int| 0 <= j < pairs@.len() ==> (#[trigger] pairs@[j]).1 > 0,
            forall|a: int, b: int|
                0 <= a < pairs@.len() && 0 <= b < pairs@.len() && a != b ==> (#[trigger] pairs@[a]).0@
                    != (#[trigger] pairs@[b]).0@,
            forall|w: Seq<char>|
                #[trigger] count_in(ws.take(i as int), w) > 0 ==> exists|j: int|
                    0 <= j < pairs@.len() && (#[trigger] pairs@[j]).0@ == w,
        decreases words@.len() - i,
    {
        let ghost p = ws.take(i + 1);
        let ghost x = ws[i as int];
        proof {
            assert(p.drop_last() =~= ws.take(i as int));
            assert(p.last() == x);
            lemma_count_le_len(ws.take(i as int), x);
        }
        let mut j: usize = 0;
        let mut found = false;
        while j < pairs.len() && !found
            invariant
                0 <= j <= pairs@.len(),
                !found ==> forall|t: int| 0 <= t < j ==> (#[trigger] pairs@[t]).0@ != x,
                found ==> j > 0 && pairs@[j - 1].0@ == x,
                i < words@.len(),
                words@[i as int]@ == x,
            decreases pairs@.len() - j + if found { 0int } else { 1int },
        {
            if pairs[j].0 == words[i] {
                found = true;
            }
            j = j + 1;
        }
        let ghost before = pairs@;
        if found {
            let (k, c) = pairs.remove(j - 1);
            pairs.insert(j - 1, (k, c + 1));
            proof {
                assert forall|t: int| 0 <= t < pairs@.len() && t != j - 1 implies #[trigger] pairs@[t] == before[t] by {
                }
            }
        } else {
            pairs.push((words[i].clone(), 1));
            proof {
                assert(count_in(ws.take(i as int), x) == 0);
                assert forall|t: int| 0 <= t < before.len() implies #[trigger] pairs@[t] == before[t] by {
                }
            }
        }
        proof {
            let n = pairs@.len();
            assert forall|w: Seq<char>| #[trigger] count_in(p, w) > 0 implies exists|t: int|
                0 <= t < n && (#[trigger] pairs@[t]).0@ == w by {
                if w == x {
                    if found {
                        assert(pairs@[j - 1].0@ == x);
                    } else {
                        assert(pairs@[n - 1].0@ == x);
                    }
                } else {
                    assert(count_in(ws.take(i as int), w) > 0);
                    let t = choose|t: int| 0 <= t < before.len() && (#[trigger] before[t]).0@ == w;
                    assert(pairs@[t].0@ == before[t].0@);
                }
            }
        }
        i = i + 1;
    }
    proof {
        assert(ws.take(ws.len() as int) =~= ws);
    }
    let r = into_map(pairs);
    proof {
        assert forall|w: Seq<char>| #[trigger] count_in(ws, w) > 0 implies exists|k: String|
            k@ == w && #[trigger] r@.contains_key(k) by {
            let j = choose|j: int| 0 <= j < pairs@.len() && (#[trigger] pairs@[j]).0@ == w;
            assert(r@.contains_key(pairs@[j].0));
        }
    }
    r
}

/// The words joined by single spaces.
pub open spec fn joined(ws: Seq<Seq<char>>) -> Seq<char>
    decreases ws.len(),
{
    if ws.len() == 0 {
        Seq::empty()
    } else if ws.len() == 1 {
        ws[0]
    } else {
        joined(ws.drop_last()) + seq![' '] + ws.last()
    }
}

impl StringProcessor {
    /// Collapses every run of whitespace to one space and drops leading and
    /// trailing whitespace.
    pub fn remove_whitespace(&mut self)
        ensures
            final(self).content@ == joined(words_of(old(self).content@)),
    {
        let cs = chars_of(self.content.as_str());
        let mut out: Vec<char> = Vec::new();
        let mut cur: Vec<char> = Vec::new();
        let ghost mut done: Seq<Seq<char>> = Seq::empty();
        let mut i: usize = 0;
        while i < cs.len()
            invariant
                0 <= i <= cs@.len(),
                cur@ == scan_words(cs@.take(i as int)).1,
                done == scan_words(cs@.take(i as int)).0,
                forall|k: int| 0 <= k < done.len() ==> (#[trigger] done[k]).len() > 0,
                out@ == joined(done),
            decreases cs@.len() - i,
        {
            let ghost p = cs@.take(i + 1);
            proof {
                assert(p.drop_last() =~= cs@.take(i as int));
                assert(p.last() == cs@[i as int]);
            }
            if is_whitespace(cs[i]) {
                if cur.len() > 0 {
                    append_word(&mut out, &cur, Ghost(done));
                    proof {
                        assert forall|k: int| 0 <= k < done.len() + 1 implies (#[trigger] done.push(cur@)[k]).len() > 0 by {
                            if k < done.len() {
                                assert(done.push(cur@)[k] == done[k]);
                            }
                        }
                        done = done.push(cur@);
                    }
                    cur = Vec::new();
                }
            } else {
                cur.push(cs[i]);
            }
            i = i + 1;
        }
        proof {
            assert(cs@.take(cs@.len() as int) =~= cs@);
        }
        if cur.len() > 0 {
            append_word(&mut out, &cur, Ghost(done));
        }
        self.content = string_of(&out);
    }
}

/// Appends `word` to `out`, after a space unless `out` is empty.
fn append_word(out: &mut Vec<char>, word: &Vec<char>, done: Ghost<Seq<Seq<char>>>)
    requires
        old(out)@ == joined(done@),
        word@.len() > 0,
        forall|k: int| 0 <= k < done@.len() ==> (#[trigger] done@[k]).len() > 0,
    ensures
        final(out)@ == joined(done@.push(word@)),
{
    proof {
        lemma_joined_empty(done@);
        assert(done@.push(word@).drop_last() =~= done@);
        assert(done@.push(word@).last() == word@);
        if done@.len() == 0 {
            assert(done@.push(word@)[0] == word@);
        }
    }
    let ghost start = out@;
    if out.len() > 0 {
        out.push(' ');
    }
    let ghost mid = out@;
    let mut i: usize = 0;
    while i < word.len()
        invariant
            0 <= i <= word@.len(),
            out@ == mid + word@.take(i as int),
        decreases word@.len() - i,
    {
        out.push(word[i]);
        proof {
            assert(word@.take(i + 1) =~= word@.take(i as int).push(word@[i as int]));
            assert(mid + word@.take(i + 1) =~= (mid + word@.take(i as int)).push(word@[i as int]));
        }
        i = i + 1;
    }
    proof {
        assert(word@.take(word@.len() as int) =~= word@);
        if start.len() == 0 {
            assert(mid == start);
            assert(Seq::<char>::empty() + word@ =~= word@);
        }
    }
}

/// Joined words are empty exactly when there are none, if none is empty.
proof fn lemma_joined_empty(ws: Seq<Seq<char>>)
    requires
        forall|k: int| 0 <= k < ws.len() ==> (#[trigger] ws[k]).len() > 0,
    ensures
        (joined(ws).len() == 0) == (ws.len() == 0),
{
    if ws.len() == 1 {
        assert(ws[0].len() > 0);
    }
}

} // verus!
