//! Text utilities for the learning pipeline: whitespace splitting, joining
//! a context window, and the deduplicated character prefix used for
//! character-level learning.
use vstd::prelude::*;

verus! {

use vstd::string::{StrSliceExecFns, StringExecFns};

/// The whitespace characters the splitter recognizes.
pub open spec fn is_space_c(c: char) -> bool {
    c == ' ' || c == '\t' || c == '\n' || c == '\r'
}

/// Whether a character counts as whitespace here.
pub fn is_space(c: char) -> (r: bool)
    ensures
        r == is_space_c(c),
{
    c == ' ' || c == '\t' || c == '\n' || c == '\r'
}

/// Relies on String::push: appends the given character to the end of the
/// string.
#[verifier::external_body]
pub fn push_char(s: &mut String, c: char)
    ensures
        final(s)@ == old(s)@.push(c),
{
    s.push(c)
}

/// A `String` holding exactly the given characters.
pub fn str_of_chars(v: &Vec<char>) -> (r: String)
    ensures
        r@ == v@,
{
    let mut out = String::new();
    let mut i: usize = 0;
    while i < v.len()
        invariant
            i <= v@.len(),
            out@ == v@.take(i as int),
        decreases v@.len() - i,
    {
        push_char(&mut out, v[i]);
        proof {
            assert(v@.take(i + 1) =~= v@.take(i as int).push(v@[i as int]));
        }
        i = i + 1;
    }
    proof {
        assert(v@.take(v@.len() as int) =~= v@);
    }
    out
}

/// The words left of position `i`, given the partial word `cur` gathered
/// so far: maximal runs of non-whitespace characters.
pub open spec fn split_ws_rec(s: Seq<char>, i: int, cur: Seq<char>) -> Seq<Seq<char>>
    decreases s.len() - i,
{
    if i < 0 || i >= s.len() {
        if cur.len() > 0 {
            seq![cur]
        } else {
            Seq::empty()
        }
    } else if is_space_c(s[i]) {
        if cur.len() > 0 {
            seq![cur] + split_ws_rec(s, i + 1, Seq::empty())
        } else {
            split_ws_rec(s, i + 1, Seq::empty())
        }
    } else {
        split_ws_rec(s, i + 1, cur.push(s[i]))
    }
}

/// The whitespace-delimited words of a text.
pub open spec fn split_ws_s(s: Seq<char>) -> Seq<Seq<char>> {
    split_ws_rec(s, 0, Seq::empty())
}

/// The views of a sequence of strings.
pub open spec fn views_of_s(ws: Seq<String>) -> Seq<Seq<char>> {
    ws.map_values(|w: String| w@)
}

/// Split a text into its whitespace-delimited words.
pub fn split_whitespace_words(s: &str) -> (r: Vec<String>)
    ensures
        views_of_s(r@) == split_ws_s(s@),
{
    let n = s.unicode_len();
    let mut words: Vec<String> = Vec::new();
    let mut cur: Vec<char> = Vec::new();
    let mut i: usize = 0;
    while i < n
        invariant
            i <= n,
            n == s@.len(),
            split_ws_s(s@) == views_of_s(words@) + split_ws_rec(s@, i as int, cur@),
        decreases n - i,
    {
        let c = s.get_char(i);
        if is_space(c) {
            if cur.len() > 0 {
                let w = str_of_chars(&cur);
                proof {
                    assert(views_of_s(words@.push(w)) =~= views_of_s(words@) + seq![cur@]);
                    assert(views_of_s(words@) + (seq![cur@] + split_ws_rec(
                        s@,
                        i + 1,
                        Seq::empty(),
                    )) =~= views_of_s(words@.push(w)) + split_ws_rec(s@, i + 1, Seq::empty()));
                }
                words.push(w);
                cur = Vec::new();
            } else {
                proof {
                    assert(cur@ =~= Seq::<char>::empty());
                }
            }
        } else {
            cur.push(c);
        }
        i = i + 1;
    }
    if cur.len() > 0 {
        let w = str_of_chars(&cur);
        proof {
            assert(views_of_s(words@.push(w)) =~= views_of_s(words@) + seq![cur@]);
        }
        words.push(w);
    }
    proof {
        assert(views_of_s(words@) + Seq::<Seq<char>>::empty() =~= views_of_s(words@));
    }
    words
}

/// Every word the splitter yields is nonempty.
pub proof fn lemma_split_words_nonempty(s: Seq<char>)
    ensures
        forall|k: int|
            0 <= k < split_ws_s(s).len() ==> (#[trigger] split_ws_s(s)[k]).len() > 0,
{
    lemma_split_rec_nonempty(s, 0, Seq::empty());
}

proof fn lemma_split_rec_nonempty(s: Seq<char>, i: int, cur: Seq<char>)
    ensures
        forall|k: int|
            0 <= k < split_ws_rec(s, i, cur).len() ==> (#[trigger] split_ws_rec(s, i, cur)[
                k]).len() > 0,
    decreases s.len() - i,
{
    if i < 0 || i >= s.len() {
        if cur.len() > 0 {
            assert(split_ws_rec(s, i, cur) == seq![cur]);
            assert(split_ws_rec(s, i, cur)[0] == cur);
        }
    } else if is_space_c(s[i]) {
        lemma_split_rec_nonempty(s, i + 1, Seq::empty());
        let rest = split_ws_rec(s, i + 1, Seq::empty());
        if cur.len() > 0 {
            assert(split_ws_rec(s, i, cur) == seq![cur] + rest);
            assert forall|k: int|
                0 <= k < split_ws_rec(s, i, cur).len() implies (#[trigger] split_ws_rec(
                s,
                i,
                cur,
            )[k]).len() > 0 by {
                if k > 0 {
                    assert(split_ws_rec(s, i, cur)[k] == rest[k - 1]);
                } else {
                    assert(split_ws_rec(s, i, cur)[0] == cur);
                }
            }
        } else {
            assert(split_ws_rec(s, i, cur) == rest);
            assert forall|k: int|
                0 <= k < split_ws_rec(s, i, cur).len() implies (#[trigger] split_ws_rec(
                s,
                i,
                cur,
            )[k]).len() > 0 by {
                assert(split_ws_rec(s, i, cur)[k] == rest[k]);
            }
        }
    } else {
        lemma_split_rec_nonempty(s, i + 1, cur.push(s[i]));
        let rest = split_ws_rec(s, i + 1, cur.push(s[i]));
        assert(split_ws_rec(s, i, cur) == rest);
        assert forall|k: int|
            0 <= k < split_ws_rec(s, i, cur).len() implies (#[trigger] split_ws_rec(s, i, cur)[
            k]).len() > 0 by {
            assert(split_ws_rec(s, i, cur)[k] == rest[k]);
        }
    }
}

/// The words joined with single spaces between them.
pub open spec fn join_ws_s(ss: Seq<Seq<char>>) -> Seq<char>
    decreases ss.len(),
{
    if ss.len() == 0 {
        Seq::empty()
    } else if ss.len() == 1 {
        ss[0]
    } else {
        join_ws_s(ss.drop_last()) + seq![' '] + ss.last()
    }
}

/// Join strings with single spaces between them.
pub fn join_with_spaces(parts: &Vec<String>) -> (r: String)
    ensures
        r@ == join_ws_s(views_of_s(parts@)),
{
    let mut out = String::new();
    let mut i: usize = 0;
    while i < parts.len()
        invariant
            i <= parts@.len(),
            out@ == join_ws_s(views_of_s(parts@.take(i as int))),
        decreases parts@.len() - i,
    {
        if i > 0 {
            push_char(&mut out, ' ');
        }
        out.append(parts[i].as_str());
        proof {
            let prev = views_of_s(parts@.take(i as int));
            let cur = views_of_s(parts@.take(i + 1));
            assert(cur =~= prev.push(parts@[i as int]@));
            assert(cur.drop_last() =~= prev);
            if i > 0 {
                assert(out@ == join_ws_s(prev) + seq![' '] + parts@[i as int]@);
            } else {
                assert(cur.len() == 1);
                assert(out@ =~= parts@[i as int]@);
            }
        }
        i = i + 1;
    }
    proof {
        assert(parts@.take(parts@.len() as int) =~= parts@);
    }
    out
}

/// One step of gathering the character prefix: whitespace and characters
/// already gathered are passed over, and gathering stops at 50.
pub open spec fn prefix_step_s(acc: Seq<char>, c: char) -> Seq<char> {
    if is_space_c(c) || acc.contains(c) || acc.len() >= 50 {
        acc
    } else {
        acc.push(c)
    }
}

/// The gathered character prefix of the first `i` characters.
pub open spec fn char_prefix_rec(s: Seq<char>, i: int, acc: Seq<char>) -> Seq<char>
    decreases s.len() - i,
{
    if i < 0 || i >= s.len() {
        acc
    } else {
        char_prefix_rec(s, i + 1, prefix_step_s(acc, s[i]))
    }
}

/// The deduplicated, whitespace-stripped prefix of a text: the first
/// occurrence of each of its first 50 distinct non-whitespace characters,
/// in order.
pub open spec fn char_prefix_s(s: Seq<char>) -> Seq<char> {
    char_prefix_rec(s, 0, Seq::empty())
}

/// Whether a gathered character is already present.
fn chars_contain(v: &Vec<char>, c: char) -> (r: bool)
    ensures
        r == v@.contains(c),
{
    let mut i: usize = 0;
    while i < v.len()
        invariant
            i <= v@.len(),
            forall|k: int| 0 <= k < i ==> v@[k] != c,
        decreases v@.len() - i,
    {
        if v[i] == c {
            return true;
        }
        i = i + 1;
    }
    false
}

/// The deduplicated, whitespace-stripped prefix of a text, up to 50
/// characters.
pub fn char_prefix(s: &str) -> (r: String)
    ensures
        r@ == char_prefix_s(s@),
{
    let n = s.unicode_len();
    let mut acc: Vec<char> = Vec::new();
    let mut i: usize = 0;
    while i < n
        invariant
            i <= n,
            n == s@.len(),
            char_prefix_s(s@) == char_prefix_rec(s@, i as int, acc@),
        decreases n - i,
    {
        let c = s.get_char(i);
        if !is_space(c) && acc.len() < 50 && !chars_contain(&acc, c) {
            acc.push(c);
        }
        i = i + 1;
    }
    str_of_chars(&acc)
}

/// Extending a text on the right keeps any prefix of it.
pub proof fn lemma_extend_keeps_prefix(a: Seq<char>, c: Seq<char>, k: int)
    requires
        0 <= k <= a.len(),
    ensures
        (a + c).subrange(0, k) == a.subrange(0, k),
{
    assert((a + c).subrange(0, k) =~= a.subrange(0, k));
}

/// Appending one character keeps any prefix.
pub proof fn lemma_push_keeps_prefix(a: Seq<char>, c: char, k: int)
    requires
        0 <= k <= a.len(),
    ensures
        a.push(c).subrange(0, k) == a.subrange(0, k),
{
    assert(a.push(c).subrange(0, k) =~= a.subrange(0, k));
}

} // verus!
