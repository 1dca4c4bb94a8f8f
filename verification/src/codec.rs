//! Lossless, self-describing byte codec for order commands.
//!
//! The wire format is a variant tag byte followed by the variant's fields:
//! strings as a character count (eight bytes, little endian) and one
//! little-endian 32-bit scalar per character; prices as eight little-endian
//! bytes; quantities as four. [`enc_cmd`] is the mathematical definition of
//! the format; `encode` and `decode` are proved against it, and
//! [`lemma_enc_cmd_injective`] states the round-trip law.

use vstd::prelude::*;

use crate::order::{CmdView, MessageFromApi, OptionType, OrderType};

verus! {

/// A stored payload that names no known command shape.
#[derive(Clone, Copy, PartialEq, Eq, Structural, Debug)]
pub enum DecodeError {
    /// The leading byte is not one of the known variant tags.
    UnknownTag,
    /// The payload is empty, truncated, carries an invalid character scalar,
    /// an invalid field tag, or trailing bytes.
    Malformed,
}

/// `sub` occurs in `s` starting at `pos`.
pub open spec fn prefix_at(s: Seq<u8>, pos: int, sub: Seq<u8>) -> bool {
    &&& 0 <= pos
    &&& pos + sub.len() <= s.len()
    &&& s.subrange(pos, pos + sub.len() as int) == sub
}

/// Four little-endian bytes of a 32-bit value.
pub open spec fn enc_u32(v: u32) -> Seq<u8> {
    seq![
        (v & 0xff) as u8,
        ((v >> 8) & 0xff) as u8,
        ((v >> 16) & 0xff) as u8,
        ((v >> 24) & 0xff) as u8,
    ]
}

/// Eight little-endian bytes of a 64-bit value.
pub open spec fn enc_u64(v: u64) -> Seq<u8> {
    seq![
        (v & 0xff) as u8,
        ((v >> 8) & 0xff) as u8,
        ((v >> 16) & 0xff) as u8,
        ((v >> 24) & 0xff) as u8,
        ((v >> 32) & 0xff) as u8,
        ((v >> 40) & 0xff) as u8,
        ((v >> 48) & 0xff) as u8,
        ((v >> 56) & 0xff) as u8,
    ]
}

/// A character is carried as its Unicode scalar value.
pub open spec fn enc_char(c: char) -> Seq<u8> {
    enc_u32(c as u32)
}

/// Characters in order, four bytes each.
pub open spec fn enc_chars(s: Seq<char>) -> Seq<u8>
    decreases s.len(),
{
    if s.len() == 0 {
        Seq::empty()
    } else {
        enc_char(s[0]) + enc_chars(s.drop_first())
    }
}

/// A string: its character count, then its characters.
pub open spec fn enc_str(s: Seq<char>) -> Seq<u8> {
    enc_u64(s.len() as u64) + enc_chars(s)
}

/// Wire tag of an option value.
pub open spec fn opt_byte(o: OptionType) -> u8 {
    match o {
        OptionType::Yes => 1,
        OptionType::No => 2,
    }
}

/// Wire tag of an order type.
pub open spec fn side_byte(t: OrderType) -> u8 {
    match t {
        OrderType::Buy => 1,
        OrderType::Sell => 2,
    }
}

/// The encoding of a command: a variant tag byte, then the fields.
pub open spec fn enc_cmd(m: CmdView) -> Seq<u8> {
    match m {
        CmdView::CreateOrder { user_id, market_id, option, order_type, price, quantity } => {
            seq![1u8] + (enc_str(user_id) + (enc_str(market_id) + (seq![
                opt_byte(option),
                side_byte(order_type),
            ] + (enc_u64(price) + enc_u32(quantity)))))
        },
        CmdView::CancelOrder { user_id, order_id } => {
            seq![2u8] + (enc_str(user_id) + enc_str(order_id))
        },
    }
}

/// String fields short enough for their count to be carried in eight bytes.
/// Every machine-representable command satisfies this.
pub open spec fn cmd_fits(m: CmdView) -> bool {
    match m {
        CmdView::CreateOrder { user_id, market_id, option, order_type, price, quantity } => {
            user_id.len() <= u64::MAX && market_id.len() <= u64::MAX
        },
        CmdView::CancelOrder { user_id, order_id } => {
            user_id.len() <= u64::MAX && order_id.len() <= u64::MAX
        },
    }
}

pub proof fn lemma_enc_u32_inj(a: u32, b: u32)
    requires
        enc_u32(a) == enc_u32(b),
    ensures
        a == b,
{
    assert((a & 0xff) as u8 == (b & 0xff) as u8);
    assert(((a >> 8) & 0xff) as u8 == ((b >> 8) & 0xff) as u8);
    assert(((a >> 16) & 0xff) as u8 == ((b >> 16) & 0xff) as u8);
    assert(((a >> 24) & 0xff) as u8 == ((b >> 24) & 0xff) as u8);
    assert((a & 0xff) as u8 == (b & 0xff) as u8 && ((a >> 8) & 0xff) as u8 == ((b >> 8)
        & 0xff) as u8 && ((a >> 16) & 0xff) as u8 == ((b >> 16) & 0xff) as u8 && ((a >> 24)
        & 0xff) as u8 == ((b >> 24) & 0xff) as u8 ==> a == b) by (bit_vector);
}

pub proof fn lemma_enc_u64_inj(a: u64, b: u64)
    requires
        enc_u64(a) == enc_u64(b),
    ensures
        a == b,
{
    assert((a & 0xff) as u8 == (b & 0xff) as u8);
    assert(((a >> 8) & 0xff) as u8 == ((b >> 8) & 0xff) as u8);
    assert(((a >> 16) & 0xff) as u8 == ((b >> 16) & 0xff) as u8);
    assert(((a >> 24) & 0xff) as u8 == ((b >> 24) & 0xff) as u8);
    assert(((a >> 32) & 0xff) as u8 == ((b >> 32) & 0xff) as u8);
    assert(((a >> 40) & 0xff) as u8 == ((b >> 40) & 0xff) as u8);
    assert(((a >> 48) & 0xff) as u8 == ((b >> 48) & 0xff) as u8);
    assert(((a >> 56) & 0xff) as u8 == ((b >> 56) & 0xff) as u8);
    assert((a & 0xff) as u8 == (b & 0xff) as u8 && ((a >> 8) & 0xff) as u8 == ((b >> 8)
        & 0xff) as u8 && ((a >> 16) & 0xff) as u8 == ((b >> 16) & 0xff) as u8 && ((a >> 24)
        & 0xff) as u8 == ((b >> 24) & 0xff) as u8 && ((a >> 32) & 0xff) as u8 == ((b >> 32)
        & 0xff) as u8 && ((a >> 40) & 0xff) as u8 == ((b >> 40) & 0xff) as u8 && ((a >> 48)
        & 0xff) as u8 == ((b >> 48) & 0xff) as u8 && ((a >> 56) & 0xff) as u8 == ((b >> 56)
        & 0xff) as u8 ==> a == b) by (bit_vector);
}

fn push_u32(out: &mut Vec<u8>, v: u32)
    ensures
        final(out)@ == old(out)@ + enc_u32(v),
{
    out.push((v & 0xff) as u8);
    out.push(((v >> 8) & 0xff) as u8);
    out.push(((v >> 16) & 0xff) as u8);
    out.push(((v >> 24) & 0xff) as u8);
    proof {
        assert(out@ =~= old(out)@ + enc_u32(v));
    }
}

fn push_u64(out: &mut Vec<u8>, v: u64)
    ensures
        final(out)@ == old(out)@ + enc_u64(v),
{
    out.push((v & 0xff) as u8);
    out.push(((v >> 8) & 0xff) as u8);
    out.push(((v >> 16) & 0xff) as u8);
    out.push(((v >> 24) & 0xff) as u8);
    out.push(((v >> 32) & 0xff) as u8);
    out.push(((v >> 40) & 0xff) as u8);
    out.push(((v >> 48) & 0xff) as u8);
    out.push(((v >> 56) & 0xff) as u8);
    proof {
        assert(out@ =~= old(out)@ + enc_u64(v));
    }
}

fn read_u32(bytes: &Vec<u8>, pos: usize) -> (r: Option<(u32, usize)>)
    ensures
        match r {
            Some(p) => p.1 == pos + 4 && prefix_at(bytes@, pos as int, enc_u32(p.0)),
            None => pos + 4 > bytes@.len(),
        },
{
    if bytes.len() < 4 || pos > bytes.len() - 4 {
        return None;
    }
    let b0 = bytes[pos];
    let b1 = bytes[pos + 1];
    let b2 = bytes[pos + 2];
    let b3 = bytes[pos + 3];
    let v: u32 = (b0 as u32) | ((b1 as u32) << 8) | ((b2 as u32) << 16) | ((b3 as u32) << 24);
    proof {
        let w = (b0 as u32) | ((b1 as u32) << 8) | ((b2 as u32) << 16) | ((b3 as u32) << 24);
        assert((w & 0xff) as u8 == b0 && ((w >> 8) & 0xff) as u8 == b1 && ((w >> 16)
            & 0xff) as u8 == b2 && ((w >> 24) & 0xff) as u8 == b3) by (bit_vector)
            requires
                w == (b0 as u32) | ((b1 as u32) << 8) | ((b2 as u32) << 16) | ((b3 as u32) << 24),
        ;
        assert(bytes@.subrange(pos as int, pos as int + 4) =~= enc_u32(v));
    }
    Some((v, pos + 4))
}

fn read_u64(bytes: &Vec<u8>, pos: usize) -> (r: Option<(u64, usize)>)
    ensures
        match r {
            Some(p) => p.1 == pos + 8 && prefix_at(bytes@, pos as int, enc_u64(p.0)),
            None => pos + 8 > bytes@.len(),
        },
{
    if bytes.len() < 8 || pos > bytes.len() - 8 {
        return None;
    }
    let b0 = bytes[pos];
    let b1 = bytes[pos + 1];
    let b2 = bytes[pos + 2];
    let b3 = bytes[pos + 3];
    let b4 = bytes[pos + 4];
    let b5 = bytes[pos + 5];
    let b6 = bytes[pos + 6];
    let b7 = bytes[pos + 7];
    let v: u64 = (b0 as u64) | ((b1 as u64) << 8) | ((b2 as u64) << 16) | ((b3 as u64) << 24) | (
    (b4 as u64) << 32) | ((b5 as u64) << 40) | ((b6 as u64) << 48) | ((b7 as u64) << 56);
    proof {
        let w = (b0 as u64) | ((b1 as u64) << 8) | ((b2 as u64) << 16) | ((b3 as u64) << 24) | (
        (b4 as u64) << 32) | ((b5 as u64) << 40) | ((b6 as u64) << 48) | ((b7 as u64) << 56);
        assert((w & 0xff) as u8 == b0 && ((w >> 8) & 0xff) as u8 == b1 && ((w >> 16)
            & 0xff) as u8 == b2 && ((w >> 24) & 0xff) as u8 == b3 && ((w >> 32) & 0xff) as u8 == b4
            && ((w >> 40) & 0xff) as u8 == b5 && ((w >> 48) & 0xff) as u8 == b6 && ((w >> 56)
            & 0xff) as u8 == b7) by (bit_vector)
            requires
                w == (b0 as u64) | ((b1 as u64) << 8) | ((b2 as u64) << 16) | ((b3 as u64) << 24)
                    | ((b4 as u64) << 32) | ((b5 as u64) << 40) | ((b6 as u64) << 48) | (
                (b7 as u64) << 56),
        ;
        assert(bytes@.subrange(pos as int, pos as int + 8) =~= enc_u64(v));
    }
    Some((v, pos + 8))
}

pub proof fn lemma_enc_chars_len(s: Seq<char>)
    ensures
        enc_chars(s).len() == 4 * s.len(),
    decreases s.len(),
{
    if s.len() > 0 {
        lemma_enc_chars_len(s.drop_first());
    }
}

pub proof fn lemma_enc_chars_concat(a: Seq<char>, b: Seq<char>)
    ensures
        enc_chars(a + b) == enc_chars(a) + enc_chars(b),
    decreases a.len(),
{
    lemma_enc_chars_len(a);
    lemma_enc_chars_len(b);
    lemma_enc_chars_len(a + b);
    if a.len() == 0 {
        assert(a + b =~= b);
        assert(enc_chars(a) + enc_chars(b) =~= enc_chars(b));
    } else {
        lemma_enc_chars_concat(a.drop_first(), b);
        assert((a + b).drop_first() =~= a.drop_first() + b);
        assert((a + b)[0] == a[0]);
        assert(enc_chars(a + b) == enc_char(a[0]) + (enc_chars(a.drop_first()) + enc_chars(b)));
        assert(enc_char(a[0]) + (enc_chars(a.drop_first()) + enc_chars(b)) =~= (enc_char(a[0])
            + enc_chars(a.drop_first())) + enc_chars(b));
        assert(enc_char(a[0]) + enc_chars(a.drop_first()) == enc_chars(a));
    }
}

pub proof fn lemma_enc_chars_snoc(s: Seq<char>)
    requires
        s.len() > 0,
    ensures
        enc_chars(s) == enc_chars(s.drop_last()) + enc_char(s.last()),
{
    lemma_enc_chars_concat(s.drop_last(), seq![s.last()]);
    assert(s.drop_last() + seq![s.last()] =~= s);
    let single = seq![s.last()];
    assert(single.len() == 1 && single[0] == s.last());
    assert(single.drop_first() =~= Seq::<char>::empty());
    assert(enc_chars(Seq::<char>::empty()) == Seq::<u8>::empty());
    assert(enc_chars(single) == enc_char(s.last()) + Seq::<u8>::empty());
    assert(enc_char(s.last()) + Seq::<u8>::empty() =~= enc_char(s.last()));
}

/// The bytes of character `i` sit at offset `4 * i` of the character block.
pub proof fn lemma_enc_chars_index(s: Seq<char>, i: int)
    requires
        0 <= i < s.len(),
    ensures
        enc_chars(s).len() == 4 * s.len(),
        enc_chars(s).subrange(4 * i, 4 * i + 4) == enc_char(s[i]),
    decreases s.len(),
{
    lemma_enc_chars_len(s);
    lemma_enc_chars_len(s.drop_first());
    if i == 0 {
        assert(enc_chars(s).subrange(0, 4) =~= enc_char(s[0]));
    } else {
        lemma_enc_chars_index(s.drop_first(), i - 1);
        assert(enc_chars(s).subrange(4 * i, 4 * i + 4) =~= enc_chars(s.drop_first()).subrange(
            4 * (i - 1),
            4 * (i - 1) + 4,
        ));
        assert(s.drop_first()[i - 1] == s[i]);
    }
}

/// Relies on `char::from_u32` of std: it returns `Some` exactly for Unicode
/// scalar values (all code points but the surrogate range), and the returned
/// character has the given scalar value.
pub assume_specification[ char::from_u32 ](v: u32) -> (r: Option<char>)
    ensures
        r is Some <==> (v < 0xD800 || (0xE000 <= v && v <= 0x10FFFF)),
        r is Some ==> r.unwrap() as u32 == v,
;

/// Relies on `String::push` of std: it appends the given character.
pub assume_specification[ String::push ](s: &mut String, c: char)
    ensures
        final(s)@ == old(s)@.push(c),
;

fn read_char(bytes: &Vec<u8>, pos: usize) -> (r: Option<(char, usize)>)
    ensures
        match r {
            Some(p) => p.1 == pos + 4 && prefix_at(bytes@, pos as int, enc_char(p.0)),
            None => pos + 4 > bytes@.len() || (forall|c: char|
                bytes@.subrange(pos as int, pos as int + 4) != enc_char(c)),
        },
{
    match read_u32(bytes, pos) {
        None => None,
        Some((v, q)) => {
            match char::from_u32(v) {
                Some(c) => {
                    proof {
                        assert(c as u32 == v);
                    }
                    Some((c, q))
                },
                None => {
                    proof {
                        assert forall|c: char|
                            bytes@.subrange(pos as int, pos as int + 4) != enc_char(c) by {
                            if bytes@.subrange(pos as int, pos as int + 4) == enc_char(c) {
                                lemma_enc_u32_inj(c as u32, v);
                                vstd::utf8::char_is_scalar(c);
                                assert(vstd::utf8::is_scalar(c as u32));
                                assert(false);
                            }
                        }
                    }
                    None
                },
            }
        },
    }
}

fn push_str(out: &mut Vec<u8>, s: &str)
    ensures
        final(out)@ == old(out)@ + enc_str(s@),
        s@.len() <= u64::MAX,
{
    let n = s.unicode_len();
    push_u64(out, n as u64);
    let mut i: usize = 0;
    while i < n
        invariant
            i <= n,
            n == s@.len(),
            out@ == old(out)@ + enc_u64(n as u64) + enc_chars(s@.take(i as int)),
        decreases n - i,
    {
        let c = s.get_char(i);
        push_u32(out, c as u32);
        proof {
            let t = s@.take(i + 1 as int);
            lemma_enc_chars_snoc(t);
            assert(t.drop_last() =~= s@.take(i as int));
            assert(t.last() == s@[i as int]);
            assert(out@ =~= old(out)@ + enc_u64(n as u64) + enc_chars(s@.take(i + 1 as int)));
        }
        i = i + 1;
    }
    proof {
        assert(s@.take(n as int) =~= s@);
        assert(out@ =~= old(out)@ + enc_str(s@));
    }
}

fn read_str(bytes: &Vec<u8>, pos: usize) -> (r: Option<(String, usize)>)
    ensures
        match r {
            Some(p) => {
                &&& p.0@.len() <= u64::MAX
                &&& p.1 == pos + 8 + 4 * p.0@.len()
                &&& prefix_at(bytes@, pos as int, enc_str(p.0@))
            },
            None => forall|s: Seq<char>|
                s.len() <= u64::MAX ==> !prefix_at(bytes@, pos as int, enc_str(s)),
        },
{
    let r0 = read_u64(bytes, pos);
    if r0.is_none() {
        proof {
            assert forall|s: Seq<char>|
                s.len() <= u64::MAX implies !prefix_at(bytes@, pos as int, enc_str(s)) by {
                assert(enc_str(s).len() >= 8);
            }
        }
        return None;
    }
    let (n, p1) = r0.unwrap();
    let room = (bytes.len() - p1) / 4;
    if n > room as u64 {
        proof {
            assert forall|s: Seq<char>|
                s.len() <= u64::MAX implies !prefix_at(bytes@, pos as int, enc_str(s)) by {
                if prefix_at(bytes@, pos as int, enc_str(s)) {
                    lemma_enc_chars_len(s);
                    assert(prefix_at(bytes@, pos as int, enc_u64(s.len() as u64))) by {
                        assert(bytes@.subrange(pos as int, pos as int + 8) =~= enc_str(
                            s,
                        ).subrange(0, 8));
                        assert(enc_str(s).subrange(0, 8) =~= enc_u64(s.len() as u64));
                    }
                    lemma_enc_u64_inj(s.len() as u64, n);
                    assert(pos + 8 + 4 * s.len() <= bytes@.len());
                    assert(4 * (room as int) + 3 >= bytes@.len() - p1);
                }
            }
        }
        return None;
    }
    let n_us: usize = n as usize;
    let mut t = String::new();
    let mut cur: usize = p1;
    let mut i: usize = 0;
    while i < n_us
        invariant
            i <= n_us,
            n_us == n,
            n <= (bytes@.len() - p1) / 4,
            p1 == pos + 8,
            pos + 8 <= bytes@.len(),
            cur == p1 + 4 * i,
            t@.len() == i,
            prefix_at(bytes@, pos as int, enc_u64(n)),
            bytes@.subrange(p1 as int, cur as int) == enc_chars(t@),
        decreases n_us - i,
    {
        proof {
            lemma_enc_chars_len(t@);
        }
        match read_char(bytes, cur) {
            Some((c, q)) => {
                let ghost t0 = t@;
                t.push(c);
                proof {
                    lemma_enc_chars_snoc(t@);
                    assert(t@.drop_last() =~= t0);
                    assert(t@.last() == c);
                    assert(bytes@.subrange(p1 as int, q as int) =~= bytes@.subrange(
                        p1 as int,
                        cur as int,
                    ) + bytes@.subrange(cur as int, q as int));
                    assert(bytes@.subrange(p1 as int, q as int) == enc_chars(t@));
                }
                cur = q;
            },
            None => {
                proof {
                    assert forall|s: Seq<char>|
                        s.len() <= u64::MAX implies !prefix_at(bytes@, pos as int, enc_str(s)) by {
                        if prefix_at(bytes@, pos as int, enc_str(s)) {
                            lemma_enc_chars_len(s);
                            assert(prefix_at(bytes@, pos as int, enc_u64(s.len() as u64))) by {
                                assert(bytes@.subrange(pos as int, pos as int + 8) =~= enc_str(
                                    s,
                                ).subrange(0, 8));
                                assert(enc_str(s).subrange(0, 8) =~= enc_u64(s.len() as u64));
                            }
                            lemma_enc_u64_inj(s.len() as u64, n);
                            assert(s.len() == n);
                            lemma_enc_chars_index(s, i as int);
                            assert(bytes@.subrange(cur as int, cur as int + 4) =~= enc_char(
                                s[i as int],
                            )) by {
                                assert(bytes@.subrange(p1 as int, p1 + 4 * (n as int)) =~= enc_str(
                                    s,
                                ).subrange(8, enc_str(s).len() as int));
                                assert(enc_str(s).subrange(8, enc_str(s).len() as int) =~= enc_chars(
                                    s,
                                ));
                                assert(bytes@.subrange(cur as int, cur as int + 4) =~= bytes@
                                    .subrange(p1 as int, p1 + 4 * (n as int)).subrange(
                                    4 * (i as int),
                                    4 * (i as int) + 4,
                                ));
                            }
                        }
                    }
                }
                return None;
            },
        }
        i = i + 1;
    }
    proof {
        lemma_enc_chars_len(t@);
        assert(t@.len() == n);
        assert(bytes@.subrange(pos as int, cur as int) =~= enc_u64(n) + enc_chars(t@)) by {
            assert(bytes@.subrange(pos as int, p1 as int) == enc_u64(n));
            assert(bytes@.subrange(p1 as int, cur as int) == enc_chars(t@));
            assert(bytes@.subrange(pos as int, cur as int) =~= bytes@.subrange(
                pos as int,
                p1 as int,
            ) + bytes@.subrange(p1 as int, cur as int));
        }
        assert(enc_str(t@) == enc_u64(n) + enc_chars(t@));
    }
    Some((t, cur))
}

/// Serialize a command. Total: every command value has an encoding, and the
/// encoding is exactly [`enc_cmd`] of the command's view.
pub fn encode(m: &MessageFromApi) -> (out: Vec<u8>)
    ensures
        out@ == enc_cmd(m@),
        cmd_fits(m@),
{
    let mut out: Vec<u8> = Vec::new();
    match m {
        MessageFromApi::CreateOrder { user_id, market_id, option, order_type, price, quantity } => {
            out.push(1u8);
            push_str(&mut out, user_id.as_str());
            push_str(&mut out, market_id.as_str());
            let ob: u8 = match option {
                OptionType::Yes => 1,
                OptionType::No => 2,
            };
            out.push(ob);
            let sb: u8 = match order_type {
                OrderType::Buy => 1,
                OrderType::Sell => 2,
            };
            out.push(sb);
            push_u64(&mut out, *price);
            push_u32(&mut out, *quantity);
            proof {
                lemma_enc_chars_len(user_id@);
                lemma_enc_chars_len(market_id@);
                assert(out@ =~= enc_cmd(m@));
            }
        },
        MessageFromApi::CancelOrder { user_id, order_id } => {
            out.push(2u8);
            push_str(&mut out, user_id.as_str());
            push_str(&mut out, order_id.as_str());
            proof {
                lemma_enc_chars_len(user_id@);
                lemma_enc_chars_len(order_id@);
                assert(out@ =~= enc_cmd(m@));
            }
        },
    }
    out
}

/// A slice of an occurrence is the matching slice of the occurring sequence.
pub proof fn lemma_prefix_slice(s: Seq<u8>, pos: int, sub: Seq<u8>, lo: int, hi: int)
    requires
        prefix_at(s, pos, sub),
        0 <= lo <= hi <= sub.len(),
    ensures
        s.subrange(pos + lo, pos + hi) == sub.subrange(lo, hi),
{
    assert forall|j: int| 0 <= j < hi - lo implies s.subrange(pos + lo, pos + hi)[j] == sub.subrange(
        lo,
        hi,
    )[j] by {
        assert(s.subrange(pos, pos + sub.len() as int)[lo + j] == sub[lo + j]);
    }
    assert(s.subrange(pos + lo, pos + hi) =~= sub.subrange(lo, hi));
}

/// Splitting a concatenation that occurs at a position into its two halves.
pub proof fn lemma_peel(s: Seq<u8>, pos: int, a: Seq<u8>, b: Seq<u8>)
    requires
        prefix_at(s, pos, a + b),
    ensures
        prefix_at(s, pos, a),
        prefix_at(s, pos + a.len(), b),
{
    lemma_prefix_slice(s, pos, a + b, 0, a.len() as int);
    lemma_prefix_slice(s, pos, a + b, a.len() as int, (a + b).len() as int);
    assert((a + b).subrange(0, a.len() as int) =~= a);
    assert((a + b).subrange(a.len() as int, (a + b).len() as int) =~= b);
}

/// At most one string encoding occurs at a given position.
pub proof fn lemma_enc_str_prefix_det(s1: Seq<char>, s2: Seq<char>, s: Seq<u8>, pos: int)
    requires
        s1.len() <= u64::MAX,
        s2.len() <= u64::MAX,
        prefix_at(s, pos, enc_str(s1)),
        prefix_at(s, pos, enc_str(s2)),
    ensures
        s1 == s2,
{
    lemma_enc_chars_len(s1);
    lemma_enc_chars_len(s2);
    lemma_peel(s, pos, enc_u64(s1.len() as u64), enc_chars(s1));
    lemma_peel(s, pos, enc_u64(s2.len() as u64), enc_chars(s2));
    assert(enc_u64(s1.len() as u64) == enc_u64(s2.len() as u64)) by {
        assert(s.subrange(pos, pos + 8) == enc_u64(s1.len() as u64));
        assert(s.subrange(pos, pos + 8) == enc_u64(s2.len() as u64));
    }
    lemma_enc_u64_inj(s1.len() as u64, s2.len() as u64);
    assert(s1.len() == s2.len());
    assert forall|i: int| 0 <= i < s1.len() implies s1[i] == s2[i] by {
        lemma_enc_chars_index(s1, i);
        lemma_enc_chars_index(s2, i);
        lemma_prefix_slice(s, pos + 8, enc_chars(s1), 4 * i, 4 * i + 4);
        lemma_prefix_slice(s, pos + 8, enc_chars(s2), 4 * i, 4 * i + 4);
        assert(s.subrange(pos + 8 + 4 * i, pos + 8 + 4 * i + 4) == enc_char(s1[i]));
        assert(s.subrange(pos + 8 + 4 * i, pos + 8 + 4 * i + 4) == enc_char(s2[i]));
        assert(enc_u32(s1[i] as u32) == enc_u32(s2[i] as u32));
        lemma_enc_u32_inj(s1[i] as u32, s2[i] as u32);
        assert(s1[i] as u32 == s2[i] as u32);
        vstd::utf8::char_u32_cast(s1[i], s1[i] as u32);
        vstd::utf8::char_u32_cast(s2[i], s2[i] as u32);
        assert(s1[i] == s2[i]);
    }
    assert(s1 =~= s2);
}

/// The round-trip law in its mathematical form: the wire format loses
/// nothing, so two commands with the same encoding are the same command.
/// Together with the contracts of `encode` and `decode` this gives
/// `decode(encode(c)) == Ok(c)` for every command `c`.
pub proof fn lemma_enc_cmd_injective(v1: CmdView, v2: CmdView)
    requires
        cmd_fits(v1),
        cmd_fits(v2),
        enc_cmd(v1) == enc_cmd(v2),
    ensures
        v1 == v2,
{
    let s = enc_cmd(v1);
    assert(prefix_at(s, 0, enc_cmd(v1))) by {
        assert(s.subrange(0, s.len() as int) =~= s);
    }
    assert(prefix_at(s, 0, enc_cmd(v2))) by {
        assert(s.subrange(0, s.len() as int) =~= s);
    }
    lemma_enc_cmd_prefix_det(v1, v2, s, 0);
}

/// At most one command encoding occurs at a given position.
pub proof fn lemma_enc_cmd_prefix_det(v1: CmdView, v2: CmdView, s: Seq<u8>, pos: int)
    requires
        cmd_fits(v1),
        cmd_fits(v2),
        prefix_at(s, pos, enc_cmd(v1)),
        prefix_at(s, pos, enc_cmd(v2)),
    ensures
        v1 == v2,
{
    assert(s[pos] == enc_cmd(v1)[0]);
    assert(s[pos] == enc_cmd(v2)[0]);
    match (v1, v2) {
        (
            CmdView::CreateOrder { user_id: u1, market_id: m1, option: o1, order_type: t1, price: p1, quantity: q1 },
            CmdView::CreateOrder { user_id: u2, market_id: m2, option: o2, order_type: t2, price: p2, quantity: q2 },
        ) => {
            lemma_enc_chars_len(u1);
            lemma_enc_chars_len(u2);
            lemma_enc_chars_len(m1);
            lemma_enc_chars_len(m2);
            lemma_peel(s, pos, seq![1u8], enc_str(u1) + (enc_str(m1) + (seq![
                opt_byte(o1),
                side_byte(t1),
            ] + (enc_u64(p1) + enc_u32(q1)))));
            lemma_peel(s, pos, seq![1u8], enc_str(u2) + (enc_str(m2) + (seq![
                opt_byte(o2),
                side_byte(t2),
            ] + (enc_u64(p2) + enc_u32(q2)))));
            lemma_peel(s, pos + 1, enc_str(u1), enc_str(m1) + (seq![
                opt_byte(o1),
                side_byte(t1),
            ] + (enc_u64(p1) + enc_u32(q1))));
            lemma_peel(s, pos + 1, enc_str(u2), enc_str(m2) + (seq![
                opt_byte(o2),
                side_byte(t2),
            ] + (enc_u64(p2) + enc_u32(q2))));
            lemma_enc_str_prefix_det(u1, u2, s, pos + 1);
            let pm = pos + 1 + enc_str(u1).len();
            lemma_peel(s, pm, enc_str(m1), seq![opt_byte(o1), side_byte(t1)] + (enc_u64(p1)
                + enc_u32(q1)));
            lemma_peel(s, pm, enc_str(m2), seq![opt_byte(o2), side_byte(t2)] + (enc_u64(p2)
                + enc_u32(q2)));
            lemma_enc_str_prefix_det(m1, m2, s, pm);
            let pt = pm + enc_str(m1).len();
            lemma_peel(s, pt, seq![opt_byte(o1), side_byte(t1)], enc_u64(p1) + enc_u32(q1));
            lemma_peel(s, pt, seq![opt_byte(o2), side_byte(t2)], enc_u64(p2) + enc_u32(q2));
            assert(s[pt] == opt_byte(o1) && s[pt] == opt_byte(o2)) by {
                assert(s.subrange(pt, pt + 2) == seq![opt_byte(o1), side_byte(t1)]);
                assert(s.subrange(pt, pt + 2) == seq![opt_byte(o2), side_byte(t2)]);
            }
            assert(s[pt + 1] == side_byte(t1) && s[pt + 1] == side_byte(t2)) by {
                assert(s.subrange(pt, pt + 2) == seq![opt_byte(o1), side_byte(t1)]);
                assert(s.subrange(pt, pt + 2) == seq![opt_byte(o2), side_byte(t2)]);
            }
            assert(o1 == o2) by {
                assert(opt_byte(o1) == opt_byte(o2));
            }
            assert(t1 == t2) by {
                assert(side_byte(t1) == side_byte(t2));
            }
            let pp = pt + 2;
            lemma_peel(s, pp, enc_u64(p1), enc_u32(q1));
            lemma_peel(s, pp, enc_u64(p2), enc_u32(q2));
            assert(enc_u64(p1) == enc_u64(p2)) by {
                assert(s.subrange(pp, pp + 8) == enc_u64(p1));
                assert(s.subrange(pp, pp + 8) == enc_u64(p2));
            }
            lemma_enc_u64_inj(p1, p2);
            assert(enc_u32(q1) == enc_u32(q2)) by {
                assert(s.subrange(pp + 8, pp + 12) == enc_u32(q1));
                assert(s.subrange(pp + 8, pp + 12) == enc_u32(q2));
            }
            lemma_enc_u32_inj(q1, q2);
        },
        (
            CmdView::CancelOrder { user_id: u1, order_id: o1 },
            CmdView::CancelOrder { user_id: u2, order_id: o2 },
        ) => {
            lemma_enc_chars_len(u1);
            lemma_enc_chars_len(u2);
            lemma_peel(s, pos, seq![2u8], enc_str(u1) + enc_str(o1));
            lemma_peel(s, pos, seq![2u8], enc_str(u2) + enc_str(o2));
            lemma_peel(s, pos + 1, enc_str(u1), enc_str(o1));
            lemma_peel(s, pos + 1, enc_str(u2), enc_str(o2));
            lemma_enc_str_prefix_det(u1, u2, s, pos + 1);
            let po = pos + 1 + enc_str(u1).len();
            lemma_enc_str_prefix_det(o1, o2, s, po);
        },
        (CmdView::CreateOrder { .. }, CmdView::CancelOrder { .. }) => {
            assert(enc_cmd(v1)[0] == 1);
            assert(enc_cmd(v2)[0] == 2);
        },
        (CmdView::CancelOrder { .. }, CmdView::CreateOrder { .. }) => {
            assert(enc_cmd(v1)[0] == 2);
            assert(enc_cmd(v2)[0] == 1);
        },
    }
}

/// Where each field of an encoded create command sits.
#[verifier::rlimit(100)]
#[verifier::spinoff_prover]
pub proof fn lemma_create_layout(s: Seq<u8>, u: Seq<char>, mk: Seq<char>, o: OptionType, tt: OrderType, p: u64, qq: u32)
    requires
        s == enc_cmd(CmdView::CreateOrder { user_id: u, market_id: mk, option: o, order_type: tt, price: p, quantity: qq }),
    ensures
        s[0] == 1,
        enc_str(u).len() == 8 + 4 * u.len(),
        enc_str(mk).len() == 8 + 4 * mk.len(),
        prefix_at(s, 1, enc_str(u)),
        prefix_at(s, 1 + enc_str(u).len() as int, enc_str(mk)),
        s[1 + enc_str(u).len() + enc_str(mk).len() as int] == opt_byte(o),
        s[2 + enc_str(u).len() + enc_str(mk).len() as int] == side_byte(tt),
        prefix_at(s, 3 + enc_str(u).len() + enc_str(mk).len() as int, enc_u64(p)),
        prefix_at(s, 11 + enc_str(u).len() + enc_str(mk).len() as int, enc_u32(qq)),
        s.len() == 15 + enc_str(u).len() + enc_str(mk).len(),
{
    lemma_enc_chars_len(u);
    lemma_enc_chars_len(mk);
    let tail = enc_u64(p) + enc_u32(qq);
    let rest = enc_str(mk) + (seq![opt_byte(o), side_byte(tt)] + tail);
    assert(prefix_at(s, 0, s)) by {
        assert(s.subrange(0, s.len() as int) =~= s);
    }
    lemma_peel(s, 0, seq![1u8], enc_str(u) + rest);
    lemma_peel(s, 1, enc_str(u), rest);
    let pm = 1 + enc_str(u).len() as int;
    lemma_peel(s, pm, enc_str(mk), seq![opt_byte(o), side_byte(tt)] + tail);
    let pt = pm + enc_str(mk).len() as int;
    lemma_peel(s, pt, seq![opt_byte(o), side_byte(tt)], tail);
    assert(s[pt] == opt_byte(o) && s[pt + 1] == side_byte(tt)) by {
        let tags = seq![opt_byte(o), side_byte(tt)];
        assert(s.subrange(pt, pt + 2) == tags);
        assert(s.subrange(pt, pt + 2)[0] == s[pt]);
        assert(s.subrange(pt, pt + 2)[1] == s[pt + 1]);
        assert(tags[0] == opt_byte(o));
        assert(tags[1] == side_byte(tt));
    }
    lemma_peel(s, pt + 2, enc_u64(p), enc_u32(qq));
}

/// Where each field of an encoded cancel command sits.
pub proof fn lemma_cancel_layout(s: Seq<u8>, u: Seq<char>, oid: Seq<char>)
    requires
        s == enc_cmd(CmdView::CancelOrder { user_id: u, order_id: oid }),
    ensures
        s[0] == 2,
        enc_str(u).len() == 8 + 4 * u.len(),
        enc_str(oid).len() == 8 + 4 * oid.len(),
        prefix_at(s, 1, enc_str(u)),
        prefix_at(s, 1 + enc_str(u).len() as int, enc_str(oid)),
        s.len() == 1 + enc_str(u).len() + enc_str(oid).len(),
{
    lemma_enc_chars_len(u);
    lemma_enc_chars_len(oid);
    assert(prefix_at(s, 0, s)) by {
        assert(s.subrange(0, s.len() as int) =~= s);
    }
    lemma_peel(s, 0, seq![2u8], enc_str(u) + enc_str(oid));
    lemma_peel(s, 1, enc_str(u), enc_str(oid));
}

/// If no string occurs after the create tag, no create command is encoded.
proof fn lemma_create_fail_user(bytes: Seq<u8>)
    requires
        bytes.len() >= 1,
        bytes[0] == 1,
        forall|s: Seq<char>| s.len() <= u64::MAX ==> !prefix_at(bytes, 1, enc_str(s)),
    ensures
        forall|v: CmdView| cmd_fits(v) ==> bytes != enc_cmd(v),
{
    assert forall|v: CmdView| cmd_fits(v) implies bytes != enc_cmd(v) by {
        if bytes == enc_cmd(v) {
            match v {
                CmdView::CancelOrder { user_id: u, order_id: oid } => {
                    lemma_cancel_layout(bytes, u, oid);
                },
                CmdView::CreateOrder { user_id: u, market_id: mk, option: o, order_type: tt, price: p, quantity: qq } => {
                    lemma_create_layout(bytes, u, mk, o, tt, p, qq);
                },
            }
        }
    }
}

/// If no second string follows the first, no create command is encoded.
proof fn lemma_create_fail_market(bytes: Seq<u8>, t1: Seq<char>, q1: int)
    requires
        bytes.len() >= 1,
        bytes[0] == 1,
        t1.len() <= u64::MAX,
        prefix_at(bytes, 1, enc_str(t1)),
        q1 == 9 + 4 * t1.len(),
        forall|s: Seq<char>| s.len() <= u64::MAX ==> !prefix_at(bytes, q1, enc_str(s)),
    ensures
        forall|v: CmdView| cmd_fits(v) ==> bytes != enc_cmd(v),
{
    lemma_enc_chars_len(t1);
    assert forall|v: CmdView| cmd_fits(v) implies bytes != enc_cmd(v) by {
        if bytes == enc_cmd(v) {
            match v {
                CmdView::CancelOrder { user_id: u, order_id: oid } => {
                    lemma_cancel_layout(bytes, u, oid);
                },
                CmdView::CreateOrder { user_id: u, market_id: mk, option: o, order_type: tt, price: p, quantity: qq } => {
                    lemma_create_layout(bytes, u, mk, o, tt, p, qq);
                    lemma_enc_str_prefix_det(u, t1, bytes, 1);
                    assert(prefix_at(bytes, q1, enc_str(mk)));
                    assert(false);
                },
            }
        }
    }
}

/// With both strings read, the tail must be exactly fourteen bytes of
/// well-formed tags, price and quantity; otherwise no create command fits.
proof fn lemma_create_fail_tail(bytes: Seq<u8>, t1: Seq<char>, q1: int, t2: Seq<char>, q2: int, bad_len: bool, ob: u8, sb: u8)
    requires
        bytes.len() >= 1,
        bytes[0] == 1,
        t1.len() <= u64::MAX,
        t2.len() <= u64::MAX,
        prefix_at(bytes, 1, enc_str(t1)),
        q1 == 9 + 4 * t1.len(),
        prefix_at(bytes, q1, enc_str(t2)),
        q2 == q1 + 8 + 4 * t2.len(),
        bad_len ==> bytes.len() != q2 + 14,
        !bad_len ==> q2 + 2 <= bytes.len() && bytes[q2] == ob && bytes[q2 + 1] == sb,
        bad_len || !(ob == 1 || ob == 2) || !(sb == 1 || sb == 2),
    ensures
        forall|v: CmdView| cmd_fits(v) ==> bytes != enc_cmd(v),
{
    lemma_enc_chars_len(t1);
    lemma_enc_chars_len(t2);
    assert forall|v: CmdView| cmd_fits(v) implies bytes != enc_cmd(v) by {
        if bytes == enc_cmd(v) {
            match v {
                CmdView::CancelOrder { user_id: u, order_id: oid } => {
                    lemma_cancel_layout(bytes, u, oid);
                },
                CmdView::CreateOrder { user_id: u, market_id: mk, option: o, order_type: tt, price: p, quantity: qq } => {
                    lemma_create_layout(bytes, u, mk, o, tt, p, qq);
                    lemma_enc_str_prefix_det(u, t1, bytes, 1);
                    lemma_enc_str_prefix_det(mk, t2, bytes, q1);
                    assert(bytes.len() == q2 + 14);
                    assert(bytes[q2] == opt_byte(o));
                    assert(bytes[q2 + 1] == side_byte(tt));
                    assert(false);
                },
            }
        }
    }
}

/// Two adjacent occurrences join into an occurrence of the concatenation.
pub proof fn lemma_join(s: Seq<u8>, pos: int, a: Seq<u8>, b: Seq<u8>)
    requires
        prefix_at(s, pos, a),
        prefix_at(s, pos + a.len(), b),
    ensures
        prefix_at(s, pos, a + b),
{
    assert forall|j: int| 0 <= j < (a + b).len() implies s.subrange(
        pos,
        pos + (a + b).len() as int,
    )[j] == (a + b)[j] by {
        if j < a.len() {
            assert(s.subrange(pos, pos + a.len() as int)[j] == a[j]);
        } else {
            assert(s.subrange(pos + a.len(), pos + a.len() + b.len() as int)[j - a.len()] == b[j
                - a.len()]);
        }
    }
    assert(s.subrange(pos, pos + (a + b).len() as int) =~= a + b);
}

/// Assembling a create command back from its parsed pieces.
#[verifier::rlimit(50)]
proof fn lemma_create_ok(bytes: Seq<u8>, t1: Seq<char>, q1: int, t2: Seq<char>, q2: int, option: OptionType, side: OrderType, price: u64, quantity: u32)
    requires
        bytes.len() >= 1,
        bytes[0] == 1,
        t1.len() <= u64::MAX,
        t2.len() <= u64::MAX,
        prefix_at(bytes, 1, enc_str(t1)),
        q1 == 9 + 4 * t1.len(),
        prefix_at(bytes, q1, enc_str(t2)),
        q2 == q1 + 8 + 4 * t2.len(),
        q2 + 2 <= bytes.len(),
        bytes[q2] == opt_byte(option),
        bytes[q2 + 1] == side_byte(side),
        prefix_at(bytes, q2 + 2, enc_u64(price)),
        prefix_at(bytes, q2 + 10, enc_u32(quantity)),
        bytes.len() == q2 + 14,
    ensures
        bytes == enc_cmd(CmdView::CreateOrder {
            user_id: t1,
            market_id: t2,
            option,
            order_type: side,
            price,
            quantity,
        }),
{
    lemma_enc_chars_len(t1);
    lemma_enc_chars_len(t2);
    let tagv = seq![opt_byte(option), side_byte(side)];
    assert(prefix_at(bytes, q2, tagv)) by {
        assert(bytes.subrange(q2, q2 + 2) =~= tagv);
    }
    lemma_join(bytes, q2 + 2, enc_u64(price), enc_u32(quantity));
    let tail = enc_u64(price) + enc_u32(quantity);
    lemma_join(bytes, q2, tagv, tail);
    lemma_join(bytes, q1, enc_str(t2), tagv + tail);
    lemma_join(bytes, 1, enc_str(t1), enc_str(t2) + (tagv + tail));
    assert(prefix_at(bytes, 0, seq![1u8])) by {
        assert(bytes.subrange(0, 1) =~= seq![1u8]);
    }
    lemma_join(bytes, 0, seq![1u8], enc_str(t1) + (enc_str(t2) + (tagv + tail)));
    let whole = seq![1u8] + (enc_str(t1) + (enc_str(t2) + (tagv + tail)));
    assert(bytes.len() == whole.len());
    assert(bytes.subrange(0, bytes.len() as int) =~= bytes);
    assert(bytes == whole);
}

fn decode_create(bytes: &Vec<u8>) -> (r: Option<MessageFromApi>)
    requires
        bytes@.len() >= 1,
        bytes@[0] == 1,
    ensures
        match r {
            Some(c) => bytes@ == enc_cmd(c@) && cmd_fits(c@),
            None => forall|v: CmdView| cmd_fits(v) ==> bytes@ != enc_cmd(v),
        },
{
    let r1 = read_str(bytes, 1);
    if r1.is_none() {
        proof {
            lemma_create_fail_user(bytes@);
        }
        return None;
    }
    let (t1, q1) = r1.unwrap();
    proof {
        lemma_enc_chars_len(t1@);
    }
    let r2 = read_str(bytes, q1);
    if r2.is_none() {
        proof {
            lemma_create_fail_market(bytes@, t1@, q1 as int);
        }
        return None;
    }
    let (t2, q2) = r2.unwrap();
    proof {
        lemma_enc_chars_len(t2@);
    }
    if bytes.len() - q2 != 14 {
        proof {
            lemma_create_fail_tail(bytes@, t1@, q1 as int, t2@, q2 as int, true, 0, 0);
        }
        return None;
    }
    let ob = bytes[q2];
    let sb = bytes[q2 + 1];
    if !(ob == 1 || ob == 2) || !(sb == 1 || sb == 2) {
        proof {
            lemma_create_fail_tail(bytes@, t1@, q1 as int, t2@, q2 as int, false, ob, sb);
        }
        return None;
    }
    let option = if ob == 1 {
        OptionType::Yes
    } else {
        OptionType::No
    };
    let side = if sb == 1 {
        OrderType::Buy
    } else {
        OrderType::Sell
    };
    let r3 = read_u64(bytes, q2 + 2);
    let (price, q3) = r3.unwrap();
    let r4 = read_u32(bytes, q3);
    let (quantity, q4) = r4.unwrap();
    let cmd = MessageFromApi::CreateOrder {
        user_id: t1,
        market_id: t2,
        option,
        order_type: side,
        price,
        quantity,
    };
    proof {
        lemma_create_ok(
            bytes@,
            t1@,
            q1 as int,
            t2@,
            q2 as int,
            option,
            side,
            price,
            quantity,
        );
    }
    Some(cmd)
}

/// If no string occurs after the cancel tag, no cancel command is encoded.
proof fn lemma_cancel_fail_user(bytes: Seq<u8>)
    requires
        bytes.len() >= 1,
        bytes[0] == 2,
        forall|s: Seq<char>| s.len() <= u64::MAX ==> !prefix_at(bytes, 1, enc_str(s)),
    ensures
        forall|v: CmdView| cmd_fits(v) ==> bytes != enc_cmd(v),
{
    assert forall|v: CmdView| cmd_fits(v) implies bytes != enc_cmd(v) by {
        if bytes == enc_cmd(v) {
            match v {
                CmdView::CreateOrder { user_id: u, market_id: mk, option: o, order_type: tt, price: p, quantity: qq } => {
                    lemma_create_layout(bytes, u, mk, o, tt, p, qq);
                },
                CmdView::CancelOrder { user_id: u, order_id: oid } => {
                    lemma_cancel_layout(bytes, u, oid);
                },
            }
        }
    }
}

/// The second string must follow the first and end the payload; otherwise no
/// cancel command is encoded.
proof fn lemma_cancel_fail_order(bytes: Seq<u8>, t1: Seq<char>, q1: int, parsed: Option<(Seq<char>, int)>)
    requires
        bytes.len() >= 1,
        bytes[0] == 2,
        t1.len() <= u64::MAX,
        prefix_at(bytes, 1, enc_str(t1)),
        q1 == 9 + 4 * t1.len(),
        match parsed {
            None => forall|s: Seq<char>| s.len() <= u64::MAX ==> !prefix_at(bytes, q1, enc_str(s)),
            Some(p) => p.0.len() <= u64::MAX && prefix_at(bytes, q1, enc_str(p.0)) && p.1 == q1 + 8
                + 4 * p.0.len() && p.1 != bytes.len(),
        },
    ensures
        forall|v: CmdView| cmd_fits(v) ==> bytes != enc_cmd(v),
{
    lemma_enc_chars_len(t1);
    assert forall|v: CmdView| cmd_fits(v) implies bytes != enc_cmd(v) by {
        if bytes == enc_cmd(v) {
            match v {
                CmdView::CreateOrder { user_id: u, market_id: mk, option: o, order_type: tt, price: p, quantity: qq } => {
                    lemma_create_layout(bytes, u, mk, o, tt, p, qq);
                },
                CmdView::CancelOrder { user_id: u, order_id: oid } => {
                    lemma_cancel_layout(bytes, u, oid);
                    lemma_enc_str_prefix_det(u, t1, bytes, 1);
                    match parsed {
                        None => {
                            assert(prefix_at(bytes, q1, enc_str(oid)));
                        },
                        Some(p) => {
                            lemma_enc_str_prefix_det(oid, p.0, bytes, q1);
                            lemma_enc_chars_len(oid);
                            assert(bytes.len() == q1 + enc_str(oid).len());
                        },
                    }
                    assert(false);
                },
            }
        }
    }
}

/// Assembling a cancel command back from its parsed pieces.
proof fn lemma_cancel_ok(bytes: Seq<u8>, t1: Seq<char>, q1: int, t2: Seq<char>, q2: int)
    requires
        bytes.len() >= 1,
        bytes[0] == 2,
        t1.len() <= u64::MAX,
        t2.len() <= u64::MAX,
        prefix_at(bytes, 1, enc_str(t1)),
        q1 == 9 + 4 * t1.len(),
        prefix_at(bytes, q1, enc_str(t2)),
        q2 == q1 + 8 + 4 * t2.len(),
        bytes.len() == q2,
    ensures
        bytes == enc_cmd(CmdView::CancelOrder { user_id: t1, order_id: t2 }),
{
    lemma_enc_chars_len(t1);
    lemma_enc_chars_len(t2);
    lemma_join(bytes, 1, enc_str(t1), enc_str(t2));
    assert(prefix_at(bytes, 0, seq![2u8])) by {
        assert(bytes.subrange(0, 1) =~= seq![2u8]);
    }
    lemma_join(bytes, 0, seq![2u8], enc_str(t1) + enc_str(t2));
    let whole = seq![2u8] + (enc_str(t1) + enc_str(t2));
    assert(bytes.len() == whole.len());
    assert(bytes.subrange(0, bytes.len() as int) =~= bytes);
    assert(bytes == whole);
}

fn decode_cancel(bytes: &Vec<u8>) -> (r: Option<MessageFromApi>)
    requires
        bytes@.len() >= 1,
        bytes@[0] == 2,
    ensures
        match r {
            Some(c) => bytes@ == enc_cmd(c@) && cmd_fits(c@),
            None => forall|v: CmdView| cmd_fits(v) ==> bytes@ != enc_cmd(v),
        },
{
    let r1 = read_str(bytes, 1);
    if r1.is_none() {
        proof {
            lemma_cancel_fail_user(bytes@);
        }
        return None;
    }
    let (t1, q1) = r1.unwrap();
    proof {
        lemma_enc_chars_len(t1@);
    }
    let r2 = read_str(bytes, q1);
    if r2.is_none() {
        proof {
            lemma_cancel_fail_order(bytes@, t1@, q1 as int, None);
        }
        return None;
    }
    let (t2, q2) = r2.unwrap();
    proof {
        lemma_enc_chars_len(t2@);
    }
    if q2 != bytes.len() {
        proof {
            lemma_cancel_fail_order(bytes@, t1@, q1 as int, Some((t2@, q2 as int)));
        }
        return None;
    }
    let cmd = MessageFromApi::CancelOrder { user_id: t1, order_id: t2 };
    proof {
        lemma_cancel_ok(bytes@, t1@, q1 as int, t2@, q2 as int);
    }
    Some(cmd)
}

/// Deserialize a payload.
///
/// Exact in both directions: `Ok(c)` is returned exactly when the payload is
/// the encoding of `c` — so decoding an encoded command gives that command
/// back — and any error means the payload encodes no command at all.
/// `UnknownTag` is returned exactly when the payload is non-empty and its
/// leading byte names no known variant.
pub fn decode(bytes: &Vec<u8>) -> (r: Result<MessageFromApi, DecodeError>)
    ensures
        match r {
            Ok(c) => bytes@ == enc_cmd(c@) && cmd_fits(c@),
            Err(_) => forall|v: CmdView| cmd_fits(v) ==> bytes@ != enc_cmd(v),
        },
        r == Err::<MessageFromApi, DecodeError>(DecodeError::UnknownTag) <==> (bytes@.len() >= 1
            && bytes@[0] != 1 && bytes@[0] != 2),
{
    if bytes.len() == 0 {
        proof {
            assert forall|v: CmdView| cmd_fits(v) implies bytes@ != enc_cmd(v) by {
                if bytes@ == enc_cmd(v) {
                    match v {
                        CmdView::CreateOrder { user_id: u, market_id: mk, option: o, order_type: tt, price: p, quantity: qq } => {
                            lemma_create_layout(bytes@, u, mk, o, tt, p, qq);
                        },
                        CmdView::CancelOrder { user_id: u, order_id: oid } => {
                            lemma_cancel_layout(bytes@, u, oid);
                        },
                    }
                }
            }
        }
        return Err(DecodeError::Malformed);
    }
    let tag = bytes[0];
    if tag == 1 {
        match decode_create(bytes) {
            Some(c) => Ok(c),
            None => Err(DecodeError::Malformed),
        }
    } else if tag == 2 {
        match decode_cancel(bytes) {
            Some(c) => Ok(c),
            None => Err(DecodeError::Malformed),
        }
    } else {
        proof {
            assert forall|v: CmdView| cmd_fits(v) implies bytes@ != enc_cmd(v) by {
                if bytes@ == enc_cmd(v) {
                    match v {
                        CmdView::CreateOrder { user_id: u, market_id: mk, option: o, order_type: tt, price: p, quantity: qq } => {
                            lemma_create_layout(bytes@, u, mk, o, tt, p, qq);
                        },
                        CmdView::CancelOrder { user_id: u, order_id: oid } => {
                            lemma_cancel_layout(bytes@, u, oid);
                        },
                    }
                }
            }
        }
        Err(DecodeError::UnknownTag)
    }
}

/// Decode a batch as it comes back from the log: identifiers pass through
/// untouched, and a payload that decodes badly is reported in its place
/// without stopping the rest of the batch.
pub fn decode_entries(entries: &Vec<(String, Vec<u8>)>) -> (r: Vec<
    (String, Result<MessageFromApi, DecodeError>),
>)
    ensures
        r@.len() == entries@.len(),
        forall|i: int|
            0 <= i < r@.len() ==> (#[trigger] r@[i]).0@ == entries@[i].0@ && match r@[i].1 {
                Ok(c) => entries@[i].1@ == enc_cmd(c@) && cmd_fits(c@),
                Err(_) => forall|v: CmdView| cmd_fits(v) ==> entries@[i].1@ != enc_cmd(v),
            },
{
    let mut out: Vec<(String, Result<MessageFromApi, DecodeError>)> = Vec::new();
    let n = entries.len();
    let mut i: usize = 0;
    while i < n
        invariant
            i <= n,
            n == entries@.len(),
            out@.len() == i,
            forall|j: int|
                0 <= j < i ==> (#[trigger] out@[j]).0@ == entries@[j].0@ && match out@[j].1 {
                    Ok(c) => entries@[j].1@ == enc_cmd(c@) && cmd_fits(c@),
                    Err(_) => forall|v: CmdView| cmd_fits(v) ==> entries@[j].1@ != enc_cmd(v),
                },
        decreases n - i,
    {
        let id = entries[i].0.clone();
        let res = decode(&entries[i].1);
        out.push((id, res));
        i = i + 1;
    }
    out
}

} // verus!
