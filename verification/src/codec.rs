//! The Morse codec.
//!
//! Encoding maps each grapheme cluster to its table pattern, or, for a
//! cluster outside the table, to an escape block: the BEGIN prosign, one
//! eight-symbol token per byte of the cluster's UTF-8 encoding, and the
//! END prosign.  Decoding walks a token stream, turning table patterns
//! back into their canonical characters and escape blocks back into the
//! text their bytes spell.  Decoding fails with [`MorseError::UnknownSymbol`]
//! on a token that is neither, and with [`MorseError::InvalidUtf8Escape`]
//! on an escape block whose bytes are no valid text encoding.

use vstd::prelude::*;

use vstd::string::StrSliceExecFns;
use vstd::string::StringExecFns;
use vstd::string::StringSliceAdditionalSpecFns;
use vstd::utf8::decode_utf8;
use vstd::utf8::encode_utf8;
use vstd::utf8::encode_utf8_decode_utf8;
use vstd::utf8::encode_utf8_valid_utf8;
use vstd::utf8::valid_utf8;

use crate::code::bits_of;
use crate::code::code_seq;
use crate::code::code_token;
use crate::code::is_code;
use crate::code::is_symbol;
use crate::code::lemma_bits_of_code;
use crate::code::lemma_code_seq_len;
use crate::code::lemma_code_seq_symbols;
use crate::code::parse_code;
use crate::code::two_pow;
use crate::segment::graphemes_of;
use crate::segment::split_graphemes;
use crate::table::canon;
use crate::table::char_code;
use crate::table::char_code_x;
use crate::table::char_pattern;
use crate::table::code_char;
use crate::table::code_char_x;
use crate::table::lemma_table_round_trip;
use crate::text::chars_of;
use crate::text::is_ws;
use crate::text::join_tokens;
use crate::text::join_x;
use crate::text::lemma_tokenize_join;
use crate::text::push_char;
use crate::text::tokenize;
use crate::text::tokenize_x;
use crate::text::views_of;
use crate::text::ws_free;

verus! {

/// Why a conversion failed.
#[derive(Clone, Copy, Debug, PartialEq, Eq, Structural)]
pub enum MorseError {
    /// A token that matches no table pattern and is no well-formed part
    /// of an escape block.
    UnknownSymbol,
    /// An escape block whose bytes do not form valid text.
    InvalidUtf8Escape,
}

/// The BEGIN prosign "-.....", reserved: no table pattern equals it.
pub open spec fn begin_marker() -> Seq<char> {
    code_seq(31, 6)
}

/// The END prosign ".....-", reserved: no table pattern equals it.
pub open spec fn end_marker() -> Seq<char> {
    code_seq(62, 6)
}

/// What a single token decodes to: the space for "/", the canonical
/// character of a table pattern, and nothing otherwise.
pub open spec fn token_char(t: Seq<char>) -> Option<char> {
    if t == seq!['/'] {
        Some(' ')
    } else if is_code(t) && t.len() <= 7 {
        code_char(bits_of(t) as u8, t.len() as u8)
    } else {
        None
    }
}

/// One eight-symbol token per byte, most significant bit first.
pub open spec fn byte_tokens(bs: Seq<u8>) -> Seq<Seq<char>> {
    bs.map_values(|b: u8| code_seq(b as nat, 8))
}

/// The escape block that carries the given bytes.
pub open spec fn escape_tokens(bs: Seq<u8>) -> Seq<Seq<char>> {
    seq![begin_marker()] + byte_tokens(bs) + seq![end_marker()]
}

/// A grapheme the table covers: a single character with an entry.
pub open spec fn is_representable(g: Seq<char>) -> bool {
    g.len() == 1 && char_pattern(g[0]) is Some
}

/// The tokens a grapheme encodes to: its table pattern, or the escape
/// block of its UTF-8 bytes.
pub open spec fn encode_grapheme_spec(g: Seq<char>) -> Seq<Seq<char>> {
    if is_representable(g) {
        seq![char_pattern(g[0])->Some_0]
    } else {
        escape_tokens(encode_utf8(g))
    }
}

/// The tokens of a word: the tokens of its graphemes, in order.
pub open spec fn word_tokens(gs: Seq<Seq<char>>) -> Seq<Seq<char>>
    decreases gs.len(),
{
    if gs.len() == 0 {
        Seq::empty()
    } else {
        encode_grapheme_spec(gs[0]) + word_tokens(gs.drop_first())
    }
}

/// The Morse text of a word.
pub open spec fn word_morse(w: Seq<char>) -> Seq<char> {
    join_tokens(word_tokens(graphemes_of(w)))
}

/// How many tokens stand before the first END marker.
pub open spec fn run_len(ts: Seq<Seq<char>>) -> nat
    decreases ts.len(),
{
    if ts.len() == 0 {
        0
    } else if ts[0] == end_marker() {
        0
    } else {
        1 + run_len(ts.drop_first())
    }
}

/// Every token of an escape run must be an eight-symbol code.
pub open spec fn byte_codes_ok(run: Seq<Seq<char>>) -> bool {
    forall|i: int| 0 <= i < run.len() ==> is_code(#[trigger] run[i]) && run[i].len() == 8
}

/// The bytes an escape run spells.
pub open spec fn run_bytes(run: Seq<Seq<char>>) -> Seq<u8> {
    run.map_values(|t: Seq<char>| bits_of(t) as u8)
}

/// What a token stream decodes to.
///
/// A BEGIN marker opens an escape run that reaches to the next END
/// marker, or to the end of the stream when no END follows; the run's
/// bytes are decoded as UTF-8.  Any other token decodes by itself.
pub open spec fn decode_tokens(ts: Seq<Seq<char>>) -> Result<Seq<char>, MorseError>
    decreases ts.len()
    via decode_tokens_dec
{
    if ts.len() == 0 {
        Ok(Seq::empty())
    } else if ts[0] == begin_marker() {
        let n = run_len(ts.drop_first()) as int;
        let run = ts.subrange(1, 1 + n);
        if !byte_codes_ok(run) {
            Err(MorseError::UnknownSymbol)
        } else if !valid_utf8(run_bytes(run)) {
            Err(MorseError::InvalidUtf8Escape)
        } else {
            let skip = if 1 + n < ts.len() {
                2 + n
            } else {
                1 + n
            };
            match decode_tokens(ts.subrange(skip, ts.len() as int)) {
                Ok(rest) => Ok(decode_utf8(run_bytes(run)) + rest),
                Err(e) => Err(e),
            }
        }
    } else {
        match token_char(ts[0]) {
            Some(c) => match decode_tokens(ts.drop_first()) {
                Ok(rest) => Ok(seq![c] + rest),
                Err(e) => Err(e),
            },
            None => Err(MorseError::UnknownSymbol),
        }
    }
}

#[via_fn]
proof fn decode_tokens_dec(ts: Seq<Seq<char>>) {
    if ts.len() > 0 && ts[0] == begin_marker() {
        lemma_run_len(ts.drop_first());
    }
}

/// What a Morse text decodes to: its whitespace-separated tokens, decoded.
pub open spec fn decode_text(s: Seq<char>) -> Result<Seq<char>, MorseError> {
    decode_tokens(tokenize(s))
}

/// The run before the first END marker: its tokens are not END, and an
/// END stands right after it unless the stream ran out.
pub proof fn lemma_run_len(ts: Seq<Seq<char>>)
    ensures
        run_len(ts) <= ts.len(),
        forall|j: int| 0 <= j < run_len(ts) ==> ts[j] != end_marker(),
        run_len(ts) < ts.len() ==> ts[run_len(ts) as int] == end_marker(),
    decreases ts.len(),
{
    if ts.len() == 0 {
    } else if ts[0] == end_marker() {
    } else {
        lemma_run_len(ts.drop_first());
        assert forall|j: int| 0 <= j < run_len(ts) implies ts[j] != end_marker() by {
            if j > 0 {
                assert(ts.drop_first()[j - 1] == ts[j]);
            }
        }
        if run_len(ts) < ts.len() {
            assert(ts.drop_first()[run_len(ts.drop_first()) as int] == ts[run_len(ts) as int]);
        }
    }
}

/// A stream whose first `k` tokens are not END, with an END (or the end
/// of the stream) right after, has a run of exactly `k` tokens.
pub proof fn lemma_run_len_exact(ts: Seq<Seq<char>>, k: int)
    requires
        0 <= k <= ts.len(),
        forall|j: int| 0 <= j < k ==> ts[j] != end_marker(),
        k < ts.len() ==> ts[k] == end_marker(),
    ensures
        run_len(ts) == k,
    decreases k,
{
    if k == 0 {
    } else {
        assert(ts[0] != end_marker());
        let tail = ts.drop_first();
        assert(forall|j: int| 0 <= j < k - 1 ==> tail[j] == ts[j + 1]);
        if k - 1 < tail.len() {
            assert(tail[k - 1] == ts[k]);
        }
        lemma_run_len_exact(tail, k - 1);
    }
}

/// The two prosigns: six symbols each, distinct, and no table entry.
pub proof fn lemma_marker_facts()
    ensures
        begin_marker().len() == 6,
        end_marker().len() == 6,
        is_code(begin_marker()),
        is_code(end_marker()),
        ws_free(begin_marker()),
        ws_free(end_marker()),
        begin_marker() != end_marker(),
        token_char(begin_marker()) is None,
        token_char(end_marker()) is None,
{
    reveal_with_fuel(two_pow, 9);
    lemma_code_seq_len(31, 6);
    lemma_code_seq_len(62, 6);
    lemma_code_seq_symbols(31, 6);
    lemma_code_seq_symbols(62, 6);
    lemma_bits_of_code(31, 6);
    lemma_bits_of_code(62, 6);
    assert(begin_marker() != seq!['/']) by {
        if begin_marker() == seq!['/'] {
            assert(is_symbol(begin_marker()[0]));
        }
    }
    assert(end_marker() != seq!['/']) by {
        if end_marker() == seq!['/'] {
            assert(is_symbol(end_marker()[0]));
        }
    }
}

/// Decoding after encoding a symbol: every representable character's
/// pattern decodes back to the character's canonical form.
pub proof fn lemma_symbol_round_trip(c: char)
    requires
        char_pattern(c) is Some,
    ensures
        token_char(char_pattern(c)->Some_0) == Some(canon(c)),
{
    if c == ' ' {
        assert(char_pattern(c)->Some_0 == seq!['/']);
        assert(token_char(seq!['/']) == Some(' '));
    } else {
        lemma_table_round_trip(c);
        let bl = char_code(c)->Some_0;
        let b = bl.0;
        let l = bl.1;
        let p = code_seq(b as nat, l as nat);
        lemma_code_seq_len(b as nat, l as nat);
        lemma_code_seq_symbols(b as nat, l as nat);
        lemma_bits_of_code(b as nat, l as nat);
        assert(p != seq!['/']) by {
            if p == seq!['/'] {
                assert(is_symbol(p[0]));
            }
        }
        assert(is_code(p));
        assert(bits_of(p) == b as nat);
        assert(token_char(p) == code_char(b, l));
    }
}

/// Every token of an escape block is non-empty and free of whitespace.
pub proof fn lemma_escape_tokens_wf(bs: Seq<u8>)
    ensures
        forall|i: int|
            0 <= i < escape_tokens(bs).len() ==> (#[trigger] escape_tokens(bs)[i]).len() > 0,
        forall|i: int| 0 <= i < escape_tokens(bs).len() ==> ws_free(#[trigger] escape_tokens(bs)[i]),
{
    lemma_marker_facts();
    let ts = escape_tokens(bs);
    assert forall|i: int| 0 <= i < ts.len() implies (#[trigger] ts[i]).len() > 0 && ws_free(
        ts[i],
    ) by {
        if i == 0 {
            assert(ts[i] == begin_marker());
        } else if i == ts.len() - 1 {
            assert(ts[i] == end_marker());
        } else {
            assert(ts[i] == code_seq(bs[i - 1] as nat, 8));
            lemma_code_seq_len(bs[i - 1] as nat, 8);
            lemma_code_seq_symbols(bs[i - 1] as nat, 8);
        }
    }
}

/// Decoding an escape block recovers exactly the text whose UTF-8 bytes
/// it carries, and fails exactly when the bytes are no valid encoding.
pub proof fn lemma_escape_block_decodes(bs: Seq<u8>)
    ensures
        decode_tokens(escape_tokens(bs)) == (if valid_utf8(bs) {
            Ok::<Seq<char>, MorseError>(decode_utf8(bs))
        } else {
            Err::<Seq<char>, MorseError>(MorseError::InvalidUtf8Escape)
        }),
{
    lemma_marker_facts();
    reveal_with_fuel(two_pow, 9);
    let ts = escape_tokens(bs);
    let bt = byte_tokens(bs);
    assert(ts.len() == bs.len() + 2);
    assert(ts[0] == begin_marker());
    let tail = ts.drop_first();
    assert(tail =~= bt + seq![end_marker()]);
    assert forall|j: int| 0 <= j < bs.len() implies tail[j] != end_marker() by {
        assert(tail[j] == code_seq(bs[j] as nat, 8));
        lemma_code_seq_len(bs[j] as nat, 8);
    }
    assert(tail[bs.len() as int] == end_marker());
    lemma_run_len_exact(tail, bs.len() as int);
    let n = run_len(tail) as int;
    assert(n == bs.len());
    let run = ts.subrange(1, 1 + n);
    assert(run =~= bt);
    assert(byte_codes_ok(run)) by {
        assert forall|j: int| 0 <= j < run.len() implies is_code(#[trigger] run[j]) && run[j].len()
            == 8 by {
            assert(run[j] == code_seq(bs[j] as nat, 8));
            lemma_code_seq_len(bs[j] as nat, 8);
            lemma_code_seq_symbols(bs[j] as nat, 8);
        }
    }
    assert(run_bytes(run) =~= bs) by {
        assert forall|j: int| 0 <= j < run.len() implies run_bytes(run)[j] == bs[j] by {
            assert(run[j] == code_seq(bs[j] as nat, 8));
            lemma_bits_of_code(bs[j] as nat, 8);
        }
    }
    assert(1 + n < ts.len());
    assert(ts.subrange(2 + n, ts.len() as int) =~= Seq::<Seq<char>>::empty());
    if valid_utf8(bs) {
        assert(decode_tokens(ts.subrange(2 + n, ts.len() as int)) == Ok::<Seq<char>, MorseError>(
            Seq::empty(),
        ));
        assert(decode_utf8(bs) + Seq::<char>::empty() =~= decode_utf8(bs));
    }
}

/// Decoding after encoding an unrepresentable grapheme: the escape block
/// gives the grapheme back byte-exactly, as a token stream and as Morse
/// text.
pub proof fn lemma_grapheme_round_trip(g: Seq<char>)
    requires
        !is_representable(g),
    ensures
        decode_tokens(encode_grapheme_spec(g)) == Ok::<Seq<char>, MorseError>(g),
        decode_text(join_tokens(encode_grapheme_spec(g))) == Ok::<Seq<char>, MorseError>(g),
{
    let bs = encode_utf8(g);
    encode_utf8_valid_utf8(g);
    encode_utf8_decode_utf8(g);
    lemma_escape_block_decodes(bs);
    lemma_escape_tokens_wf(bs);
    lemma_tokenize_join(escape_tokens(bs));
}

/// Looks one token up: "/" gives the space, a table pattern gives its
/// canonical character.
pub fn token_lookup(t: &Vec<char>) -> (r: Option<char>)
    ensures
        r == token_char(t@),
{
    if t.len() == 1 && t[0] == '/' {
        proof {
            assert(t@ =~= seq!['/']);
        }
        return Some(' ');
    }
    proof {
        assert(t@ != seq!['/']) by {
            if t@ == seq!['/'] {
                assert(t@.len() == 1 && t@[0] == '/');
            }
        }
    }
    match parse_code(t) {
        Some((bits, len)) => {
            if len <= 7 {
                let r = code_char_x(bits, len);
                proof {
                    assert(bits as nat == bits_of(t@));
                    assert(bits_of(t@) as u8 == bits);
                }
                r
            } else {
                None
            }
        },
        None => None,
    }
}

/// The tokens of one grapheme: its table pattern, or the escape block of
/// its UTF-8 bytes.
fn encode_grapheme_toks(g: &str) -> (r: Vec<Vec<char>>)
    ensures
        views_of(r@) == encode_grapheme_spec(g@),
{
    let cs = chars_of(g);
    if cs.len() == 1 {
        let c = cs[0];
        proof {
            assert(g@[0] == c);
        }
        if c == ' ' {
            let mut t: Vec<char> = Vec::new();
            t.push('/');
            let mut r: Vec<Vec<char>> = Vec::new();
            r.push(t);
            proof {
                assert(char_pattern(c) == Some(seq!['/']));
                assert(views_of(r@) =~= encode_grapheme_spec(g@));
            }
            return r;
        }
        match char_code_x(c) {
            Some((bits, len)) => {
                let t = code_token(bits, len);
                let mut r: Vec<Vec<char>> = Vec::new();
                r.push(t);
                proof {
                    assert(char_pattern(c) == Some(code_seq(bits as nat, len as nat)));
                    assert(views_of(r@) =~= encode_grapheme_spec(g@));
                }
                return r;
            },
            None => {
            },
        }
    }
    proof {
        assert(!is_representable(g@));
    }
    let bytes = g.as_bytes_vec();
    proof {
        assert(bytes@ == encode_utf8(g@));
    }
    escape_toks(&bytes)
}

/// The escape block of the given bytes, as tokens.
fn escape_toks(bs: &Vec<u8>) -> (r: Vec<Vec<char>>)
    ensures
        views_of(r@) == escape_tokens(bs@),
{
    let mut r: Vec<Vec<char>> = Vec::new();
    r.push(code_token(31, 6));
    let mut i: usize = 0;
    proof {
        assert(byte_tokens(bs@.take(0)) =~= Seq::<Seq<char>>::empty());
        assert(views_of(r@) =~= seq![begin_marker()] + byte_tokens(bs@.take(0)));
    }
    while i < bs.len()
        invariant
            i <= bs@.len(),
            views_of(r@) == seq![begin_marker()] + byte_tokens(bs@.take(i as int)),
        decreases bs@.len() - i,
    {
        let ghost old_r = r@;
        r.push(code_token(bs[i], 8));
        proof {
            assert(byte_tokens(bs@.take(i + 1)) =~= byte_tokens(bs@.take(i as int)).push(
                code_seq(bs@[i as int] as nat, 8),
            ));
            assert(views_of(r@) =~= views_of(old_r).push(code_seq(bs@[i as int] as nat, 8)));
            assert(views_of(r@) =~= seq![begin_marker()] + byte_tokens(bs@.take(i + 1)));
        }
        i = i + 1;
    }
    let ghost old_r = r@;
    r.push(code_token(62, 6));
    proof {
        assert(bs@.take(bs@.len() as int) =~= bs@);
        assert(views_of(r@) =~= views_of(old_r).push(end_marker()));
        assert(views_of(r@) =~= escape_tokens(bs@));
    }
    r
}

/// Encodes one grapheme cluster: its Morse pattern when the table covers
/// it, and the escape block of its bytes otherwise, tokens joined with
/// single spaces.
pub fn grapheme_to_morse(g: &str) -> (r: String)
    ensures
        r@ == join_tokens(encode_grapheme_spec(g@)),
{
    let toks = encode_grapheme_toks(g);
    join_x(&toks)
}

/// Encodes a list of grapheme clusters as one space-separated token
/// stream.
pub fn encode_graphemes(gs: &Vec<String>) -> (r: String)
    ensures
        r@ == join_tokens(word_tokens(gs.deep_view())),
{
    let ghost gv = gs.deep_view();
    let mut toks: Vec<Vec<char>> = Vec::new();
    let mut i: usize = 0;
    proof {
        assert(gv.skip(0) =~= gv);
        assert(views_of(toks@) + word_tokens(gv) =~= word_tokens(gv));
    }
    while i < gs.len()
        invariant
            i <= gs@.len(),
            gv == gs.deep_view(),
            gv.len() == gs@.len(),
            word_tokens(gv) == views_of(toks@) + word_tokens(gv.skip(i as int)),
        decreases gs@.len() - i,
    {
        let mut t = encode_grapheme_toks(gs[i].as_str());
        let ghost old_toks = toks@;
        let ghost tv = t@;
        toks.append(&mut t);
        proof {
            assert(gv[i as int] == gs@[i as int]@);
            assert(gv.skip(i as int)[0] == gv[i as int]);
            assert(gv.skip(i as int).drop_first() =~= gv.skip(i + 1));
            assert(word_tokens(gv.skip(i as int)) == encode_grapheme_spec(gv[i as int])
                + word_tokens(gv.skip(i + 1)));
            assert(views_of(toks@) =~= views_of(old_toks) + views_of(tv));
            assert(views_of(toks@) + word_tokens(gv.skip(i + 1)) =~= word_tokens(gv));
        }
        i = i + 1;
    }
    proof {
        assert(gv.skip(gv.len() as int) =~= Seq::<Seq<char>>::empty());
        assert(views_of(toks@) =~= word_tokens(gv));
    }
    join_x(&toks)
}

/// Encodes a word: Unicode-aware segmentation into grapheme clusters,
/// each cluster translated, the tokens joined with single spaces.  An
/// in-word space becomes the "/" token.
pub fn word_to_morse(w: &str) -> (r: String)
    ensures
        r@ == word_morse(w@),
{
    let gs = split_graphemes(w);
    encode_graphemes(&gs)
}

/// Decodes one Morse token: the exact table pattern or "/".  A token
/// that matches nothing, the BEGIN marker among them (only the
/// word-level scan handles escape blocks), is refused as
/// [`MorseError::UnknownSymbol`].
pub fn morse_to_grapheme(t: &str) -> (r: Result<String, MorseError>)
    ensures
        token_char(t@) matches Some(c) ==> (r matches Ok(s) && s@ == seq![c]),
        token_char(t@) is None ==> r == Err::<String, MorseError>(MorseError::UnknownSymbol),
{
    let cs = chars_of(t);
    match token_lookup(&cs) {
        Some(c) => {
            let mut s = String::new();
            push_char(&mut s, c);
            proof {
                assert(s@ =~= seq![c]);
            }
            Ok(s)
        },
        None => Err(MorseError::UnknownSymbol),
    }
}

/// Relies on `String::from_utf8`: it returns the string of the given
/// bytes exactly when they are valid UTF-8, in the sense of vstd's
/// UTF-8 model.
#[verifier::external_body]
pub(crate) fn string_from_utf8(bytes: Vec<u8>) -> (r: Option<String>)
    ensures
        (r is Some) == valid_utf8(bytes@),
        r matches Some(s) ==> s@ == decode_utf8(bytes@),
{
    match String::from_utf8(bytes) {
        Ok(s) => Some(s),
        Err(_) => None,
    }
}

/// Compares two tokens character by character.
fn token_eq(a: &Vec<char>, b: &Vec<char>) -> (r: bool)
    ensures
        r == (a@ == b@),
{
    if a.len() != b.len() {
        return false;
    }
    let mut j: usize = 0;
    while j < a.len()
        invariant
            j <= a@.len(),
            a@.len() == b@.len(),
            forall|k: int| 0 <= k < j ==> a@[k] == b@[k],
        decreases a@.len() - j,
    {
        if a[j] != b[j] {
            return false;
        }
        j = j + 1;
    }
    proof {
        assert(a@ =~= b@);
    }
    true
}

/// Decodes a token stream.
pub fn decode_tokens_x(ts: &Vec<Vec<char>>) -> (r: Result<String, MorseError>)
    ensures
        decode_tokens(views_of(ts@)) matches Ok(cs) ==> (r matches Ok(s) && s@ == cs),
        decode_tokens(views_of(ts@)) matches Err(e) ==> r == Err::<String, MorseError>(e),
{
    let ghost v = views_of(ts@);
    let begin_tok = code_token(31, 6);
    let end_tok = code_token(62, 6);
    let mut out = String::new();
    let mut i: usize = 0;
    proof {
        assert(v.skip(0) =~= v);
    }
    while i < ts.len()
        invariant
            i <= ts@.len(),
            v == views_of(ts@),
            v.len() == ts@.len(),
            begin_tok@ == begin_marker(),
            end_tok@ == end_marker(),
            decode_tokens(v.skip(i as int)) matches Ok(cs) ==> decode_tokens(v) == Ok::<
                Seq<char>,
                MorseError,
            >(out@ + cs),
            decode_tokens(v.skip(i as int)) matches Err(e) ==> decode_tokens(v) == Err::<
                Seq<char>,
                MorseError,
            >(e),
        decreases ts@.len() - i,
    {
        proof {
            assert(v[i as int] == ts@[i as int]@);
            assert(v.skip(i as int)[0] == v[i as int]);
            assert(v.skip(i as int).drop_first() =~= v.skip(i + 1));
        }
        if token_eq(&ts[i], &begin_tok) {
            let ghost tail = v.skip(i + 1);
            let mut bytes: Vec<u8> = Vec::new();
            let mut j: usize = i + 1;
            proof {
                assert(bytes@ =~= run_bytes(v.subrange(i + 1, i + 1)));
                assert(byte_codes_ok(v.subrange(i + 1, i + 1)));
            }
            while j < ts.len() && !token_eq(&ts[j], &end_tok)
                invariant
                    i + 1 <= j <= ts@.len(),
                    i < ts@.len(),
                    v == views_of(ts@),
                    v.len() == ts@.len(),
                    end_tok@ == end_marker(),
                    tail == v.skip(i + 1),
                    v[i as int] == begin_marker(),
                    forall|k: int| i + 1 <= k < j ==> v[k] != end_marker(),
                    byte_codes_ok(v.subrange(i + 1, j as int)),
                    bytes@ == run_bytes(v.subrange(i + 1, j as int)),
                    decode_tokens(v.skip(i as int)) matches Ok(cs) ==> decode_tokens(v) == Ok::<
                        Seq<char>,
                        MorseError,
                    >(out@ + cs),
                    decode_tokens(v.skip(i as int)) matches Err(e) ==> decode_tokens(v) == Err::<
                        Seq<char>,
                        MorseError,
                    >(e),
                decreases ts@.len() - j,
            {
                proof {
                    assert(v[j as int] == ts@[j as int]@);
                }
                let ok = match parse_code(&ts[j]) {
                    Some((b, l)) => {
                        if l == 8 {
                            bytes.push(b);
                            true
                        } else {
                            false
                        }
                    },
                    None => false,
                };
                if !ok {
                    proof {
                        lemma_run_len(tail);
                        let n = run_len(tail) as int;
                        let kr = j - (i + 1);
                        assert(tail[kr] == v[j as int]);
                        assert(forall|m: int| 0 <= m < kr ==> tail[m] == v[i + 1 + m]);
                        assert(n > kr) by {
                            if n <= kr {
                                assert(n < tail.len());
                                assert(tail[n] == end_marker());
                                assert(tail[n] == v[i + 1 + n]);
                            }
                        }
                        let su = v.skip(i as int);
                        assert(su.drop_first() =~= tail);
                        let run = su.subrange(1, 1 + n);
                        assert(run[kr] == v[j as int]);
                        assert(!(is_code(run[kr]) && run[kr].len() == 8));
                        assert(!byte_codes_ok(run));
                        assert(decode_tokens(su) == Err::<Seq<char>, MorseError>(
                            MorseError::UnknownSymbol,
                        ));
                    }
                    return Err(MorseError::UnknownSymbol);
                }
                proof {
                    assert(v.subrange(i + 1, j + 1) =~= v.subrange(i + 1, j as int).push(
                        v[j as int],
                    ));
                    assert(run_bytes(v.subrange(i + 1, j + 1)) =~= run_bytes(
                        v.subrange(i + 1, j as int),
                    ).push(bits_of(v[j as int]) as u8));
                    assert(v[j as int] != end_marker()) by {
                        lemma_marker_facts();
                    }
                }
                j = j + 1;
            }
            // here: the run reaches from i + 1 to j, with an END at j or
            // the stream exhausted
            let ghost n = j - (i + 1);
            proof {
                assert(forall|m: int| 0 <= m < n ==> tail[m] == v[i + 1 + m]);
                if j < ts@.len() {
                    assert(v[j as int] == ts@[j as int]@);
                    assert(tail[n as int] == v[j as int]);
                }
                lemma_run_len_exact(tail, n as int);
                let su = v.skip(i as int);
                assert(su.drop_first() =~= tail);
                let run = su.subrange(1, 1 + n);
                assert(run =~= v.subrange(i + 1, j as int));
            }
            let ghost bv = bytes@;
            match string_from_utf8(bytes) {
                Some(s) => {
                    let ghost old_out = out@;
                    out.append(s.as_str());
                    let ghost old_i = i as int;
                    if j < ts.len() {
                        i = j + 1;
                    } else {
                        i = j;
                    }
                    proof {
                        let su = v.skip(old_i);
                        let skip = if 1 + n < su.len() {
                            2 + n
                        } else {
                            1 + n
                        };
                        assert(su.subrange(skip as int, su.len() as int) =~= v.skip(i as int));
                        assert(decode_tokens(su) == (match decode_tokens(v.skip(i as int)) {
                            Ok(rest) => Ok::<Seq<char>, MorseError>(decode_utf8(bv) + rest),
                            Err(e) => Err::<Seq<char>, MorseError>(e),
                        }));
                        assert(out@ == old_out + decode_utf8(bv));
                        if decode_tokens(v.skip(i as int)) is Ok {
                            let rest = decode_tokens(v.skip(i as int))->Ok_0;
                            assert(old_out + (decode_utf8(bv) + rest) =~= out@ + rest);
                        }
                    }
                },
                None => {
                    proof {
                        let su = v.skip(i as int);
                        assert(decode_tokens(su) == Err::<Seq<char>, MorseError>(
                            MorseError::InvalidUtf8Escape,
                        ));
                    }
                    return Err(MorseError::InvalidUtf8Escape);
                },
            }
        } else {
            match token_lookup(&ts[i]) {
                Some(c) => {
                    let ghost old_out = out@;
                    push_char(&mut out, c);
                    proof {
                        let su = v.skip(i as int);
                        assert(decode_tokens(su) == (match decode_tokens(v.skip(i + 1)) {
                            Ok(rest) => Ok::<Seq<char>, MorseError>(seq![c] + rest),
                            Err(e) => Err::<Seq<char>, MorseError>(e),
                        }));
                        if decode_tokens(v.skip(i + 1)) is Ok {
                            let rest = decode_tokens(v.skip(i + 1))->Ok_0;
                            assert(old_out + (seq![c] + rest) =~= out@ + rest);
                        }
                    }
                    i = i + 1;
                },
                None => {
                    proof {
                        let su = v.skip(i as int);
                        assert(decode_tokens(su) == Err::<Seq<char>, MorseError>(
                            MorseError::UnknownSymbol,
                        ));
                    }
                    return Err(MorseError::UnknownSymbol);
                },
            }
        }
    }
    proof {
        assert(v.skip(ts@.len() as int) =~= Seq::<Seq<char>>::empty());
        assert(out@ + Seq::<char>::empty() =~= out@);
    }
    Ok(out)
}

/// The separator between the Morse texts of consecutive words.
pub open spec fn phrase_sep() -> Seq<char> {
    seq![' ', '/', ' ']
}

/// The Morse text of a phrase: one word's text after another, separated
/// by " / ".
pub open spec fn phrase_morse(ws: Seq<Seq<char>>) -> Seq<char>
    decreases ws.len(),
{
    if ws.len() == 0 {
        Seq::empty()
    } else if ws.len() == 1 {
        word_morse(ws[0])
    } else {
        word_morse(ws[0]) + phrase_sep() + phrase_morse(ws.drop_first())
    }
}

/// What a list of Morse groups decodes to: each group decoded as a word,
/// the words concatenated without separators.
pub open spec fn decode_groups(gs: Seq<Seq<char>>) -> Result<Seq<char>, MorseError>
    decreases gs.len(),
{
    if gs.len() == 0 {
        Ok(Seq::empty())
    } else {
        match decode_text(gs[0]) {
            Ok(w) => match decode_groups(gs.drop_first()) {
                Ok(rest) => Ok(w + rest),
                Err(e) => Err(e),
            },
            Err(e) => Err(e),
        }
    }
}

/// Encodes a phrase: each word's Morse text, joined with " / ".
pub fn encode_phrase(words: &Vec<String>) -> (r: String)
    ensures
        r@ == phrase_morse(words.deep_view()),
{
    let ghost wv = words.deep_view();
    let mut out = String::new();
    let mut i: usize = 0;
    proof {
        assert(wv.skip(0) =~= wv);
        assert(out@ + Seq::<char>::empty() + phrase_morse(wv) =~= phrase_morse(wv));
    }
    while i < words.len()
        invariant
            i <= words@.len(),
            wv == words.deep_view(),
            wv.len() == words@.len(),
            phrase_morse(wv) == out@ + (if 0 < i < wv.len() {
                phrase_sep()
            } else {
                Seq::<char>::empty()
            }) + phrase_morse(wv.skip(i as int)),
        decreases words@.len() - i,
    {
        let ghost sep_out = out@;
        if i > 0 {
            push_char(&mut out, ' ');
            push_char(&mut out, '/');
            push_char(&mut out, ' ');
            proof {
                assert(out@ =~= sep_out + phrase_sep());
            }
        }
        let ghost pre_out = out@;
        let w = word_to_morse(words[i].as_str());
        out.append(w.as_str());
        proof {
            assert(wv[i as int] == words@[i as int]@);
            assert(wv.skip(i as int)[0] == wv[i as int]);
            assert(wv.skip(i as int).drop_first() =~= wv.skip(i + 1));
            assert(out@ == pre_out + word_morse(wv[i as int]));
            if i + 1 < wv.len() {
                assert(phrase_morse(wv.skip(i as int)) == word_morse(wv[i as int]) + phrase_sep()
                    + phrase_morse(wv.skip(i + 1)));
                assert(phrase_morse(wv) =~= out@ + phrase_sep() + phrase_morse(wv.skip(i + 1)));
            } else {
                assert(wv.skip(i as int).len() == 1);
                assert(phrase_morse(wv.skip(i as int)) == word_morse(wv[i as int]));
                assert(wv.skip(i + 1) =~= Seq::<Seq<char>>::empty());
                assert(phrase_morse(wv) =~= out@ + Seq::<char>::empty() + phrase_morse(
                    wv.skip(i + 1),
                ));
            }
        }
        i = i + 1;
    }
    proof {
        assert(wv.skip(wv.len() as int) =~= Seq::<Seq<char>>::empty());
        assert(phrase_morse(wv) =~= out@);
    }
    out
}

/// Decodes a list of Morse groups and concatenates the words.
pub fn decode_phrase(groups: &Vec<String>) -> (r: Result<String, MorseError>)
    ensures
        decode_groups(groups.deep_view()) matches Ok(cs) ==> (r matches Ok(s) && s@ == cs),
        decode_groups(groups.deep_view()) matches Err(e) ==> r == Err::<String, MorseError>(e),
{
    let ghost gv = groups.deep_view();
    let mut out = String::new();
    let mut i: usize = 0;
    proof {
        assert(gv.skip(0) =~= gv);
    }
    while i < groups.len()
        invariant
            i <= groups@.len(),
            gv == groups.deep_view(),
            gv.len() == groups@.len(),
            decode_groups(gv.skip(i as int)) matches Ok(cs) ==> decode_groups(gv) == Ok::<
                Seq<char>,
                MorseError,
            >(out@ + cs),
            decode_groups(gv.skip(i as int)) matches Err(e) ==> decode_groups(gv) == Err::<
                Seq<char>,
                MorseError,
            >(e),
        decreases groups@.len() - i,
    {
        proof {
            assert(gv[i as int] == groups@[i as int]@);
            assert(gv.skip(i as int)[0] == gv[i as int]);
            assert(gv.skip(i as int).drop_first() =~= gv.skip(i + 1));
        }
        match morse_to_word(groups[i].as_str()) {
            Ok(w) => {
                let ghost old_out = out@;
                out.append(w.as_str());
                proof {
                    let wcs = decode_text(gv[i as int])->Ok_0;
                    assert(w@ == wcs);
                    if decode_groups(gv.skip(i + 1)) is Ok {
                        let rest = decode_groups(gv.skip(i + 1))->Ok_0;
                        assert(old_out + (wcs + rest) =~= out@ + rest);
                    }
                }
                i = i + 1;
            },
            Err(e) => {
                proof {
                    assert(decode_text(gv[i as int]) matches Err(e2) && e == e2);
                }
                return Err(e);
            },
        }
    }
    proof {
        assert(gv.skip(gv.len() as int) =~= Seq::<Seq<char>>::empty());
        assert(out@ + Seq::<char>::empty() =~= out@);
    }
    Ok(out)
}

/// Decodes a Morse text: splits it on whitespace and decodes the token
/// stream.
pub fn morse_to_word(s: &str) -> (r: Result<String, MorseError>)
    ensures
        decode_text(s@) matches Ok(cs) ==> (r matches Ok(w) && w@ == cs),
        decode_text(s@) matches Err(e) ==> r == Err::<String, MorseError>(e),
{
    let cs = chars_of(s);
    let toks = tokenize_x(&cs);
    decode_tokens_x(&toks)
}

} // verus!
