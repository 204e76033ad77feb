//! The server's command line: words split on whitespace, with no quoting.

use vstd::prelude::*;
use vstd::string::{StringExecFns, StrSliceExecFns};

verus! {

pub open spec fn is_separator(c: char) -> bool {
    c == ' ' || c == '\t' || c == '\n' || c == '\r'
}

/// The word `cur` ended here, if it has any characters.
pub open spec fn close_word(cur: Seq<char>) -> Seq<Seq<char>> {
    if cur.len() > 0 {
        seq![cur]
    } else {
        seq![]
    }
}

/// The words of `s`, given that `cur` holds the word read so far.
pub open spec fn split_words(s: Seq<char>, cur: Seq<char>) -> Seq<Seq<char>>
    decreases s.len(),
{
    if s.len() == 0 {
        close_word(cur)
    } else if is_separator(s[0]) {
        close_word(cur) + split_words(s.skip(1), seq![])
    } else {
        split_words(s.skip(1), cur.push(s[0]))
    }
}

/// The maximal runs of non-separator characters of `s`, in order.
pub open spec fn words(s: Seq<char>) -> Seq<Seq<char>> {
    split_words(s, seq![])
}

pub open spec fn views_of(v: Seq<String>) -> Seq<Seq<char>> {
    v.map_values(|w: String| w@)
}

/// Splits a command line into the program and its arguments: the words
/// between runs of spaces, tabs and line ends. Quotes have no meaning.
pub fn split_command(command: &str) -> (r: Vec<String>)
    ensures
        views_of(r@) == words(command@),
{
    let n = command.unicode_len();
    let mut out: Vec<String> = Vec::new();
    let mut cur = String::new();
    let mut i: usize = 0;
    assert(command@.skip(0) =~= command@);
    assert(views_of(out@) + words(command@) =~= words(command@));
    while i < n
        invariant
            n == command@.len(),
            i <= n,
            views_of(out@) + split_words(command@.skip(i as int), cur@) == words(command@),
        decreases n - i,
    {
        let c = command.get_char(i);
        let ghost rest = command@.skip(i as int);
        let ghost old_out = out@;
        let ghost old_cur = cur@;
        assert(rest[0] == c);
        assert(rest.skip(1) =~= command@.skip(i + 1));
        if c == ' ' || c == '\t' || c == '\n' || c == '\r' {
            assert(split_words(rest, old_cur) == close_word(old_cur) + split_words(rest.skip(1), seq![]));
            if cur.unicode_len() > 0 {
                let mut word = String::new();
                std::mem::swap(&mut word, &mut cur);
                out.push(word);
                assert(views_of(out@) =~= views_of(old_out) + close_word(old_cur));
            } else {
                assert(views_of(out@) =~= views_of(old_out) + close_word(old_cur));
            }
            assert(cur@ =~= Seq::<char>::empty());
            assert(views_of(out@) + split_words(command@.skip(i + 1), cur@) =~= views_of(old_out) + (
            close_word(old_cur) + split_words(rest.skip(1), seq![])));
        } else {
            let piece = command.substring_char(i, i + 1);
            assert(piece@ =~= seq![c]);
            cur.append(piece);
            assert(cur@ =~= old_cur.push(c));
        }
        i = i + 1;
    }
    assert(command@.skip(n as int) =~= Seq::<char>::empty());
    if cur.unicode_len() > 0 {
        let ghost old_out = out@;
        out.push(cur);
        assert(views_of(out@) =~= views_of(old_out) + close_word(cur@));
    } else {
        assert(views_of(out@) + close_word(cur@) =~= views_of(out@));
    }
    out
}

} // verus!
