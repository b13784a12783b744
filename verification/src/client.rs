//! Helpers for the interactive shell around the store: splitting a command
//! line into its head word and the rest, and the shell's help text. The
//! shell's own read/dispatch/print loop is plain glue and lives outside the
//! library; these two functions carry the only logic it needs.

use vstd::prelude::*;

verus! {

/// The characters the shell treats as blanks between words: space, tab, and
/// line or page breaks.
pub open spec fn is_blank(c: char) -> bool {
    c == ' ' || c == '\t' || c == '\n' || c == '\r' || c == '\u{b}' || c == '\u{c}'
}

/// The position of the first blank in `s`, or `s.len()` if there is none.
pub open spec fn first_blank(s: Seq<char>) -> nat
    decreases s.len(),
{
    if s.len() == 0 {
        0
    } else if is_blank(s.first()) {
        0
    } else {
        1 + first_blank(s.drop_first())
    }
}

/// [`first_blank`] never points past the end.
pub proof fn lemma_first_blank_le(s: Seq<char>)
    ensures
        first_blank(s) <= s.len(),
    decreases s.len(),
{
    if s.len() > 0 && !is_blank(s.first()) {
        lemma_first_blank_le(s.drop_first());
    }
}

/// The one position [`first_blank`] can name: a position that no blank
/// precedes and that is blank itself, unless it is the end.
pub proof fn lemma_first_blank_is(s: Seq<char>, k: int)
    requires
        0 <= k <= s.len(),
        forall|t: int| 0 <= t < k ==> !is_blank(#[trigger] s[t]),
        k < s.len() ==> is_blank(s[k]),
    ensures
        first_blank(s) == k,
    decreases s.len(),
{
    if s.len() == 0 {
    } else if is_blank(s.first()) {
        assert(s[0] == s.first());
    } else {
        assert(!is_blank(s[0]));
        assert forall|t: int| 0 <= t < k - 1 implies !is_blank(#[trigger] s.drop_first()[t]) by {
            assert(s.drop_first()[t] == s[t + 1]);
        }
        if k - 1 < s.drop_first().len() {
            assert(s.drop_first()[k - 1] == s[k]);
        }
        lemma_first_blank_is(s.drop_first(), k - 1);
    }
}

/// The words of a line: the maximal runs of non-blank characters, in order.
pub open spec fn tokens_of(s: Seq<char>) -> Seq<Seq<char>>
    decreases s.len(),
    via tokens_of_dec
{
    if s.len() == 0 {
        Seq::empty()
    } else if is_blank(s.first()) {
        tokens_of(s.drop_first())
    } else {
        seq![s.take(first_blank(s) as int)] + tokens_of(s.skip(first_blank(s) as int))
    }
}

#[via_fn]
proof fn tokens_of_dec(s: Seq<char>) {
    if s.len() > 0 && !is_blank(s.first()) {
        lemma_first_blank_le(s);
    }
}

/// The words joined back with one space between each pair: how the shell
/// rebuilds the part of the line after the head word.
pub open spec fn join_tokens(ts: Seq<Seq<char>>) -> Seq<char>
    decreases ts.len(),
{
    if ts.len() == 0 {
        Seq::empty()
    } else if ts.len() == 1 {
        ts.first()
    } else {
        ts.first() + seq![' '] + join_tokens(ts.drop_first())
    }
}

/// Joining one more word appends one space and that word.
pub proof fn lemma_join_tokens_push(ts: Seq<Seq<char>>, t: Seq<char>)
    requires
        ts.len() >= 1,
    ensures
        join_tokens(ts.push(t)) == join_tokens(ts) + seq![' '] + t,
    decreases ts.len(),
{
    assert(ts.push(t).first() == ts.first());
    assert(ts.push(t).drop_first() =~= ts.drop_first().push(t));
    if ts.len() == 1 {
        assert(ts.drop_first().push(t) =~= seq![t]);
        assert(join_tokens(seq![t]) == t);
        assert(join_tokens(ts) == ts.first());
    } else {
        lemma_join_tokens_push(ts.drop_first(), t);
        let a = ts.first();
        let b = join_tokens(ts.drop_first());
        assert(join_tokens(ts.push(t)) == a + seq![' '] + (b + seq![' '] + t));
        assert(a + seq![' '] + (b + seq![' '] + t) =~= (a + seq![' '] + b) + seq![' '] + t);
    }
}

/// Whether the shell treats `c` as a blank between words.
fn blank_char(c: char) -> (r: bool)
    ensures
        r == is_blank(c),
{
    c == ' ' || c == '\t' || c == '\n' || c == '\r' || c == '\u{b}' || c == '\u{c}'
}

/// Splits a line into its head word and the rest: the head is the first
/// word (empty if the line has none), the rest is the remaining words
/// joined with single spaces and without leading or trailing blanks — the
/// shell's command and its parameters, or a key and its value.
#[verifier::loop_isolation(false)]
pub fn split2(msg: &str) -> (r: (String, String))
    ensures
        tokens_of(msg@).len() == 0 ==> r.0@ == Seq::<char>::empty() && r.1@ == Seq::<
            char,
        >::empty(),
        tokens_of(msg@).len() > 0 ==> r.0@ == tokens_of(msg@).first() && r.1@ == join_tokens(
            tokens_of(msg@).drop_first(),
        ),
{
    let n: usize = msg.unicode_len();
    let mut head = String::new();
    let mut tail = String::new();
    let ghost all = tokens_of(msg@);
    let ghost mut ts = Seq::<Seq<char>>::empty();
    let mut count: usize = 0;
    let mut i: usize = 0;
    proof {
        assert(msg@.skip(0) =~= msg@);
        assert(Seq::<Seq<char>>::empty() + all =~= all);
    }
    while i < n
        invariant
            n == msg@.len(),
            i <= n,
            count == ts.len(),
            count <= i,
            all == ts + tokens_of(msg@.skip(i as int)),
            count == 0 ==> head@ == Seq::<char>::empty(),
            count >= 1 ==> head@ == ts[0],
            count <= 1 ==> tail@ == Seq::<char>::empty(),
            count >= 2 ==> tail@ == join_tokens(ts.drop_first()),
        decreases n - i,
    {
        let c = msg.get_char(i);
        if blank_char(c) {
            proof {
                assert(msg@.skip(i as int).first() == msg@[i as int]);
                assert(msg@.skip(i as int).drop_first() =~= msg@.skip(i as int + 1));
            }
            i = i + 1;
        } else {
            // A word starts here: scan to its end.
            let a: usize = i;
            while i < n && !blank_char(msg.get_char(i))
                invariant
                    a <= i <= n,
                    forall|t: int| a <= t < i ==> !is_blank(#[trigger] msg@[t]),
                decreases n - i,
            {
                i = i + 1;
            }
            let ghost s = msg@.skip(a as int);
            let ghost tok = msg@.subrange(a as int, i as int);
            proof {
                assert forall|t: int| 0 <= t < i - a implies !is_blank(#[trigger] s[t]) by {
                    assert(s[t] == msg@[t + a]);
                }
                if i < n {
                    assert(s[i - a] == msg@[i as int]);
                }
                lemma_first_blank_is(s, i - a);
                assert(!is_blank(s.first()));
                assert(s.take(i - a) =~= tok);
                assert(s.skip(i - a) =~= msg@.skip(i as int));
                assert(tokens_of(s) == seq![tok] + tokens_of(msg@.skip(i as int)));
            }
            let word: &str = msg.substring_char(a, i);
            if count == 0 {
                head = word.to_owned();
            } else if count == 1 {
                tail = word.to_owned();
            } else {
                tail.append(" ");
                tail.append(word);
            }
            proof {
                let old_ts = ts;
                ts = ts.push(tok);
                assert(old_ts + (seq![tok] + tokens_of(msg@.skip(i as int))) =~= ts + tokens_of(
                    msg@.skip(i as int),
                ));
                if count == 1 {
                    assert(ts.drop_first() =~= seq![tok]);
                    assert(join_tokens(seq![tok]) == tok);
                } else if count >= 2 {
                    lemma_join_tokens_push(old_ts.drop_first(), tok);
                    assert(ts.drop_first() =~= old_ts.drop_first().push(tok));
                    reveal_strlit(" ");
                    assert(" "@ =~= seq![' ']);
                }
                assert(count >= 1 ==> ts[0] == old_ts[0]);
            }
            count = count + 1;
        }
    }
    proof {
        assert(msg@.skip(n as int) =~= Seq::<char>::empty());
        assert(tokens_of(Seq::<char>::empty()) == Seq::<Seq<char>>::empty());
        assert(ts + Seq::<Seq<char>>::empty() =~= ts);
        assert(all == ts);
        if all.len() == 1 {
            assert(all.drop_first() =~= Seq::<Seq<char>>::empty());
        }
    }
    (head, tail)
}

/// The shell's banner and help text: the short greeting shown at startup,
/// or the list of commands when help is asked for.
pub fn help(startup: bool) -> (r: String)
    ensures
        startup ==> r@ == (
        "Tiny K/V REPL Version: 0.1.0.\n\nEnter 'quit' to exit or 'help' for a list of commands.\nNote: this REPL is for string types only...\n")@,
        !startup ==> r@ == (
        "Tiny K/V REPL Version: 0.1.0.\n\nCommands:\n  get key\n  set key value\n  remove key\n  dbsize\n  keys\n  loaddb filename\n  savedb filename\n  quit\n  help\n\nNote: this REPL is for string types only...\n")@,
{
    if startup {
        "Tiny K/V REPL Version: 0.1.0.\n\nEnter 'quit' to exit or 'help' for a list of commands.\nNote: this REPL is for string types only...\n".to_owned()
    } else {
        "Tiny K/V REPL Version: 0.1.0.\n\nCommands:\n  get key\n  set key value\n  remove key\n  dbsize\n  keys\n  loaddb filename\n  savedb filename\n  quit\n  help\n\nNote: this REPL is for string types only...\n".to_owned()
    }
}

} // verus!
