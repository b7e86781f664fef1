//! Splitting Morse text into tokens and joining tokens back into text.
//!
//! Tokens are the maximal whitespace-free runs of the input; the encoder
//! joins tokens with single spaces.  Joining and then splitting gives the
//! tokens back: [`lemma_tokenize_join`].

use vstd::prelude::*;

use vstd::string::StrSliceExecFns;

verus! {

/// The whitespace that separates Morse tokens.
pub open spec fn is_ws(c: char) -> bool {
    c == ' ' || c == '\t' || c == '\n' || c == '\r'
}

/// A token may not contain separator characters.
pub open spec fn ws_free(t: Seq<char>) -> bool {
    forall|i: int| 0 <= i < t.len() ==> !is_ws(#[trigger] t[i])
}

/// Splitting with an accumulator: `cur` is the token begun so far.
pub open spec fn tokenize_acc(s: Seq<char>, cur: Seq<char>) -> Seq<Seq<char>>
    decreases s.len(),
{
    if s.len() == 0 {
        if cur.len() == 0 {
            Seq::empty()
        } else {
            seq![cur]
        }
    } else if is_ws(s[0]) {
        (if cur.len() == 0 {
            Seq::empty()
        } else {
            seq![cur]
        }) + tokenize_acc(s.drop_first(), Seq::empty())
    } else {
        tokenize_acc(s.drop_first(), cur.push(s[0]))
    }
}

/// The tokens of a text: its maximal whitespace-free runs, in order.
pub open spec fn tokenize(s: Seq<char>) -> Seq<Seq<char>> {
    tokenize_acc(s, Seq::empty())
}

/// Tokens joined with single spaces.
pub open spec fn join_tokens(ts: Seq<Seq<char>>) -> Seq<char>
    decreases ts.len(),
{
    if ts.len() == 0 {
        Seq::empty()
    } else if ts.len() == 1 {
        ts[0]
    } else {
        ts[0] + seq![' '] + join_tokens(ts.drop_first())
    }
}

/// The views of a list of character vectors.
pub open spec fn views_of(ts: Seq<Vec<char>>) -> Seq<Seq<char>> {
    ts.map_values(|t: Vec<char>| t@)
}

/// Appending one more token to a join appends a space and the token,
/// unless the join was empty.
pub proof fn lemma_join_push(ts: Seq<Seq<char>>, t: Seq<char>)
    ensures
        ts.len() == 0 ==> join_tokens(ts.push(t)) == t,
        ts.len() > 0 ==> join_tokens(ts.push(t)) =~= join_tokens(ts) + seq![' '] + t,
    decreases ts.len(),
{
    if ts.len() == 0 {
        assert(join_tokens(ts.push(t)) == ts.push(t)[0]);
        assert(ts.push(t)[0] == t);
    } else {
        lemma_join_push(ts.drop_first(), t);
        assert(ts.push(t).drop_first() =~= ts.drop_first().push(t));
        if ts.len() == 1 {
            assert(join_tokens(ts.push(t)) == ts[0] + seq![' '] + join_tokens(
                ts.drop_first().push(t),
            ));
            assert(ts.drop_first().len() == 0);
            assert(join_tokens(ts.drop_first().push(t)) == t);
            assert(join_tokens(ts) == ts[0]);
        } else {
            assert(join_tokens(ts) == ts[0] + seq![' '] + join_tokens(ts.drop_first()));
        }
    }
}

/// Running the splitter through a whitespace-free block extends the open
/// token by that block.
proof fn lemma_tokenize_acc_block(t: Seq<char>, rest: Seq<char>, cur: Seq<char>)
    requires
        ws_free(t),
    ensures
        tokenize_acc(t + rest, cur) == tokenize_acc(rest, cur + t),
    decreases t.len(),
{
    if t.len() == 0 {
        assert(t + rest =~= rest);
        assert(cur + t =~= cur);
    } else {
        let s = t + rest;
        assert(s[0] == t[0]);
        assert(!is_ws(s[0]));
        assert(s.drop_first() =~= t.drop_first() + rest);
        assert(ws_free(t.drop_first())) by {
            assert(forall|i: int|
                0 <= i < t.drop_first().len() ==> t.drop_first()[i] == t[i + 1]);
        }
        lemma_tokenize_acc_block(t.drop_first(), rest, cur.push(t[0]));
        assert(cur.push(t[0]) + t.drop_first() =~= cur + t);
    }
}

/// Joining tokens with single spaces and splitting again gives the same
/// tokens, provided every token is non-empty and whitespace-free.
pub proof fn lemma_tokenize_join(ts: Seq<Seq<char>>)
    requires
        forall|i: int| 0 <= i < ts.len() ==> (#[trigger] ts[i]).len() > 0,
        forall|i: int| 0 <= i < ts.len() ==> ws_free(#[trigger] ts[i]),
    ensures
        tokenize(join_tokens(ts)) == ts,
    decreases ts.len(),
{
    let e = Seq::<char>::empty();
    if ts.len() == 0 {
    } else if ts.len() == 1 {
        lemma_tokenize_acc_block(ts[0], e, e);
        assert(ts[0] + e =~= ts[0]);
        assert(e + ts[0] =~= ts[0]);
        assert(tokenize_acc(e, ts[0]) =~= seq![ts[0]]);
        assert(seq![ts[0]] =~= ts);
    } else {
        let tail = ts.drop_first();
        assert(forall|i: int| 0 <= i < tail.len() ==> tail[i] == ts[i + 1]);
        lemma_tokenize_join(tail);
        let j = join_tokens(ts);
        let jt = join_tokens(tail);
        assert(j == ts[0] + seq![' '] + jt);
        lemma_tokenize_acc_block(ts[0], seq![' '] + jt, e);
        assert(ts[0] + (seq![' '] + jt) =~= j);
        assert(e + ts[0] =~= ts[0]);
        let m = seq![' '] + jt;
        assert(is_ws(m[0]));
        assert(m.drop_first() =~= jt);
        assert(tokenize_acc(m, ts[0]) == seq![ts[0]] + tokenize_acc(jt, e));
        assert(seq![ts[0]] + tail =~= ts);
    }
}

/// Relies on `String::push`, which appends the given character to the end
/// of the string.
#[verifier::external_body]
pub(crate) fn push_char(s: &mut String, c: char)
    ensures
        final(s)@ == old(s)@.push(c),
{
    s.push(c);
}

/// The characters of a string slice, in order.
pub fn chars_of(s: &str) -> (r: Vec<char>)
    ensures
        r@ == s@,
{
    let n = s.unicode_len();
    let mut r: Vec<char> = Vec::new();
    let mut i: usize = 0;
    while i < n
        invariant
            i <= n,
            n == s@.len(),
            r@ == s@.take(i as int),
        decreases n - i,
    {
        r.push(s.get_char(i));
        proof {
            assert(s@.take(i + 1) =~= s@.take(i as int).push(s@[i as int]));
        }
        i = i + 1;
    }
    proof {
        assert(s@.take(n as int) =~= s@);
    }
    r
}

/// Appends every character of `t` to `s`.
pub fn push_chars(s: &mut String, t: &Vec<char>)
    ensures
        final(s)@ == old(s)@ + t@,
{
    let mut i: usize = 0;
    while i < t.len()
        invariant
            i <= t@.len(),
            s@ == old(s)@ + t@.take(i as int),
        decreases t@.len() - i,
    {
        push_char(s, t[i]);
        proof {
            assert(old(s)@ + t@.take(i + 1) =~= (old(s)@ + t@.take(i as int)).push(t@[i as int]));
        }
        i = i + 1;
    }
    proof {
        assert(old(s)@ + t@.take(t@.len() as int) =~= old(s)@ + t@);
    }
}

/// Splits a text into its whitespace-separated tokens.
pub fn tokenize_x(s: &Vec<char>) -> (r: Vec<Vec<char>>)
    ensures
        views_of(r@) == tokenize(s@),
{
    let mut out: Vec<Vec<char>> = Vec::new();
    let mut cur: Vec<char> = Vec::new();
    let mut i: usize = 0;
    proof {
        assert(s@.skip(0) =~= s@);
        assert(views_of(out@) + tokenize_acc(s@, cur@) =~= tokenize_acc(s@, cur@));
    }
    while i < s.len()
        invariant
            i <= s@.len(),
            tokenize(s@) == views_of(out@) + tokenize_acc(s@.skip(i as int), cur@),
        decreases s@.len() - i,
    {
        let c = s[i];
        proof {
            assert(s@.skip(i as int)[0] == s@[i as int]);
            assert(s@.skip(i as int).drop_first() =~= s@.skip(i + 1));
        }
        if c == ' ' || c == '\t' || c == '\n' || c == '\r' {
            let ghost old_out = out@;
            let ghost old_cur = cur@;
            if cur.len() > 0 {
                out.push(cur);
                cur = Vec::new();
                proof {
                    assert(views_of(out@) =~= views_of(old_out).push(old_cur));
                }
            }
            proof {
                let t_next = tokenize_acc(s@.skip(i + 1), Seq::<char>::empty());
                assert(tokenize_acc(s@.skip(i as int), old_cur) == (if old_cur.len() == 0 {
                    Seq::<Seq<char>>::empty()
                } else {
                    seq![old_cur]
                }) + t_next);
                if old_cur.len() == 0 {
                    assert(cur@ =~= Seq::<char>::empty());
                    assert(Seq::<Seq<char>>::empty() + t_next =~= t_next);
                    assert(views_of(out@) + tokenize_acc(s@.skip(i + 1), cur@) =~= tokenize(s@));
                } else {
                    assert(views_of(old_out) + (seq![old_cur] + t_next) =~= views_of(
                        old_out,
                    ).push(old_cur) + t_next);
                    assert(views_of(out@) + tokenize_acc(s@.skip(i + 1), cur@) =~= tokenize(s@));
                }
            }
        } else {
            cur.push(c);
        }
        i = i + 1;
    }
    proof {
        assert(s@.skip(s@.len() as int) =~= Seq::<char>::empty());
    }
    if cur.len() > 0 {
        let ghost old_out = out@;
        let ghost old_cur = cur@;
        out.push(cur);
        proof {
            assert(views_of(out@) =~= views_of(old_out).push(old_cur));
        }
    }
    proof {
        assert(views_of(out@) =~= tokenize(s@));
    }
    out
}

/// Joins tokens with single spaces into one string.
pub fn join_x(ts: &Vec<Vec<char>>) -> (r: String)
    ensures
        r@ == join_tokens(views_of(ts@)),
{
    let mut r = String::new();
    let mut i: usize = 0;
    while i < ts.len()
        invariant
            i <= ts@.len(),
            r@ == join_tokens(views_of(ts@).take(i as int)),
        decreases ts@.len() - i,
    {
        if i > 0 {
            push_char(&mut r, ' ');
        }
        push_chars(&mut r, &ts[i]);
        proof {
            let v = views_of(ts@);
            assert(v.take(i + 1) =~= v.take(i as int).push(v[i as int]));
            lemma_join_push(v.take(i as int), v[i as int]);
            assert(v[i as int] == ts@[i as int]@);
        }
        i = i + 1;
    }
    proof {
        assert(views_of(ts@).take(ts@.len() as int) =~= views_of(ts@));
    }
    r
}

} // verus!
