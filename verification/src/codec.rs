//! The registry file format: a JSON object `{"tunnels":[...]}` holding one
//! object per definition with its name, SSH endpoint, local port and remote
//! target. The transient pid is never written. The encoder emits a compact
//! canonical form; the decoder reads exactly that form back.

use vstd::prelude::*;
use crate::text::{is_digit, all_digits, digits_val, spec_dec_u, u16_to_dec, slice_part_to_vec};
use crate::tunnel::{TunnelConfig, TunnelRec};

verus! {

/// A quote or backslash is written behind a backslash; every other byte
/// stands for itself.
pub open spec fn esc_byte(b: u8) -> Seq<u8> {
    if b == 34 || b == 92 {
        seq![92u8, b]
    } else {
        seq![b]
    }
}

/// JSON string escaping of the byte strings this format stores.
pub open spec fn spec_escape(s: Seq<u8>) -> Seq<u8>
    decreases s.len(),
{
    if s.len() == 0 {
        Seq::empty()
    } else {
        spec_escape(s.drop_last()) + esc_byte(s.last())
    }
}

/// A quoted, escaped JSON string.
pub open spec fn spec_enc_str(s: Seq<u8>) -> Seq<u8> {
    seq![34u8] + spec_escape(s) + seq![34u8]
}

/// The bytes of the key `name`.
pub open spec fn key_name() -> Seq<u8> {
    seq![110u8, 97u8, 109u8, 101u8]
}

/// The bytes of the key `ssh_host`.
pub open spec fn key_ssh_host() -> Seq<u8> {
    seq![115u8, 115u8, 104u8, 95u8, 104u8, 111u8, 115u8, 116u8]
}

/// The bytes of the key `local_port`.
pub open spec fn key_local_port() -> Seq<u8> {
    seq![108u8, 111u8, 99u8, 97u8, 108u8, 95u8, 112u8, 111u8, 114u8, 116u8]
}

/// The bytes of the key `remote_target`.
pub open spec fn key_remote_target() -> Seq<u8> {
    seq![114u8, 101u8, 109u8, 111u8, 116u8, 101u8, 95u8, 116u8, 97u8, 114u8, 103u8, 101u8, 116u8]
}

/// The bytes of the key `tunnels`.
pub open spec fn key_tunnels() -> Seq<u8> {
    seq![116u8, 117u8, 110u8, 110u8, 101u8, 108u8, 115u8]
}

/// One definition as a JSON object, fields in fixed order, pid omitted.
pub open spec fn spec_enc_tunnel(t: TunnelRec) -> Seq<u8> {
    seq![123u8] + spec_enc_str(key_name()) + seq![58u8] + spec_enc_str(t.name) + seq![44u8]
        + spec_enc_str(key_ssh_host()) + seq![58u8] + spec_enc_str(t.ssh_host) + seq![44u8]
        + spec_enc_str(key_local_port()) + seq![58u8] + spec_dec_u(t.local_port as int)
        + seq![44u8] + spec_enc_str(key_remote_target()) + seq![58u8] + spec_enc_str(
        t.remote_target,
    ) + seq![125u8]
}

/// The definitions as a comma-separated JSON array body.
pub open spec fn spec_enc_list(ts: Seq<TunnelRec>) -> Seq<u8>
    decreases ts.len(),
{
    if ts.len() == 0 {
        Seq::empty()
    } else if ts.len() == 1 {
        spec_enc_tunnel(ts.first())
    } else {
        spec_enc_tunnel(ts.first()) + seq![44u8] + spec_enc_list(ts.drop_first())
    }
}

/// The whole registry file.
pub open spec fn spec_encode_registry(ts: Seq<TunnelRec>) -> Seq<u8> {
    seq![123u8] + spec_enc_str(key_tunnels()) + seq![58u8] + seq![91u8] + spec_enc_list(ts)
        + seq![93u8] + seq![125u8]
}

/// Appending one definition extends the array body by a comma (after the
/// first) and the definition's object.
proof fn lemma_enc_list_snoc(ts: Seq<TunnelRec>, t: TunnelRec)
    ensures
        spec_enc_list(ts.push(t)) == (if ts.len() == 0 {
            spec_enc_tunnel(t)
        } else {
            spec_enc_list(ts) + seq![44u8] + spec_enc_tunnel(t)
        }),
    decreases ts.len(),
{
    if ts.len() == 0 {
        assert(ts.push(t).len() == 1);
        assert(ts.push(t).first() == t);
    } else {
        assert(ts.push(t).first() == ts.first());
        assert(ts.push(t).drop_first() =~= ts.drop_first().push(t));
        lemma_enc_list_snoc(ts.drop_first(), t);
        if ts.len() == 1 {
            assert(ts.drop_first().len() == 0);
            assert(spec_enc_list(ts.push(t)) =~= spec_enc_list(ts) + seq![44u8]
                + spec_enc_tunnel(t));
        } else {
            assert(spec_enc_list(ts.push(t)) =~= spec_enc_list(ts) + seq![44u8]
                + spec_enc_tunnel(t));
        }
    }
}

/// Append `s` to `out`.
fn push_bytes(out: &mut Vec<u8>, s: &[u8])
    ensures
        final(out)@ == old(out)@ + s@,
{
    let mut i: usize = 0;
    let ghost base = out@;
    proof {
        assert(out@ =~= base + s@.take(0));
    }
    while i < s.len()
        invariant
            0 <= i <= s@.len(),
            out@ == base + s@.take(i as int),
        decreases s@.len() - i,
    {
        out.push(s[i]);
        proof {
            assert(base + s@.take(i + 1) =~= (base + s@.take(i as int)).push(s@[i as int]));
        }
        i = i + 1;
    }
    proof {
        assert(s@.take(i as int) =~= s@);
    }
}

/// Append the escaped form of `s` to `out`.
fn push_escaped(out: &mut Vec<u8>, s: &[u8])
    ensures
        final(out)@ == old(out)@ + spec_escape(s@),
{
    let mut i: usize = 0;
    let ghost base = out@;
    proof {
        assert(s@.take(0) =~= Seq::<u8>::empty());
        assert(out@ =~= base + spec_escape(s@.take(0)));
    }
    while i < s.len()
        invariant
            0 <= i <= s@.len(),
            out@ == base + spec_escape(s@.take(i as int)),
        decreases s@.len() - i,
    {
        let b = s[i];
        proof {
            assert(s@.take(i + 1).drop_last() =~= s@.take(i as int));
            assert(s@.take(i + 1).last() == s@[i as int]);
        }
        if b == 34 || b == 92 {
            out.push(92);
            out.push(b);
            proof {
                assert(base + spec_escape(s@.take(i + 1)) =~= (base + spec_escape(
                    s@.take(i as int),
                )).push(92u8).push(b));
            }
        } else {
            out.push(b);
            proof {
                assert(base + spec_escape(s@.take(i + 1)) =~= (base + spec_escape(
                    s@.take(i as int),
                )).push(b));
            }
        }
        i = i + 1;
    }
    proof {
        assert(s@.take(i as int) =~= s@);
    }
}

/// Append a quoted, escaped string to `out`.
fn push_enc_str(out: &mut Vec<u8>, s: &[u8])
    ensures
        final(out)@ == old(out)@ + spec_enc_str(s@),
{
    let ghost base = out@;
    out.push(34);
    push_escaped(out, s);
    out.push(34);
    proof {
        assert(out@ =~= base + spec_enc_str(s@));
    }
}

fn key_name_bytes() -> (r: Vec<u8>)
    ensures
        r@ == key_name(),
{
    let mut v: Vec<u8> = Vec::new();
    v.push(110);
    v.push(97);
    v.push(109);
    v.push(101);
    proof {
        assert(v@ =~= key_name());
    }
    v
}

fn key_ssh_host_bytes() -> (r: Vec<u8>)
    ensures
        r@ == key_ssh_host(),
{
    let mut v: Vec<u8> = Vec::new();
    v.push(115);
    v.push(115);
    v.push(104);
    v.push(95);
    v.push(104);
    v.push(111);
    v.push(115);
    v.push(116);
    proof {
        assert(v@ =~= key_ssh_host());
    }
    v
}

fn key_local_port_bytes() -> (r: Vec<u8>)
    ensures
        r@ == key_local_port(),
{
    let mut v: Vec<u8> = Vec::new();
    v.push(108);
    v.push(111);
    v.push(99);
    v.push(97);
    v.push(108);
    v.push(95);
    v.push(112);
    v.push(111);
    v.push(114);
    v.push(116);
    proof {
        assert(v@ =~= key_local_port());
    }
    v
}

fn key_remote_target_bytes() -> (r: Vec<u8>)
    ensures
        r@ == key_remote_target(),
{
    let mut v: Vec<u8> = Vec::new();
    v.push(114);
    v.push(101);
    v.push(109);
    v.push(111);
    v.push(116);
    v.push(101);
    v.push(95);
    v.push(116);
    v.push(97);
    v.push(114);
    v.push(103);
    v.push(101);
    v.push(116);
    proof {
        assert(v@ =~= key_remote_target());
    }
    v
}

fn key_tunnels_bytes() -> (r: Vec<u8>)
    ensures
        r@ == key_tunnels(),
{
    let mut v: Vec<u8> = Vec::new();
    v.push(116);
    v.push(117);
    v.push(110);
    v.push(110);
    v.push(101);
    v.push(108);
    v.push(115);
    proof {
        assert(v@ =~= key_tunnels());
    }
    v
}

/// Append one definition's JSON object to `out`.
fn push_enc_tunnel(out: &mut Vec<u8>, t: &TunnelConfig)
    ensures
        final(out)@ == old(out)@ + spec_enc_tunnel(t@),
{
    let ghost base = out@;
    out.push(123);
    let kn = key_name_bytes();
    push_enc_str(out, kn.as_slice());
    out.push(58);
    push_enc_str(out, t.name.as_slice());
    out.push(44);
    let kh = key_ssh_host_bytes();
    push_enc_str(out, kh.as_slice());
    out.push(58);
    push_enc_str(out, t.ssh_host.as_slice());
    out.push(44);
    let kp = key_local_port_bytes();
    push_enc_str(out, kp.as_slice());
    out.push(58);
    let digits = u16_to_dec(t.local_port);
    push_bytes(out, digits.as_slice());
    out.push(44);
    let kr = key_remote_target_bytes();
    push_enc_str(out, kr.as_slice());
    out.push(58);
    push_enc_str(out, t.remote_target.as_slice());
    out.push(125);
    proof {
        assert(out@ =~= base + spec_enc_tunnel(t@));
    }
}

/// Serialize a definition list as the registry file's bytes.
pub fn encode_registry(ts: &Vec<TunnelConfig>) -> (r: Vec<u8>)
    ensures
        r@ == spec_encode_registry(ts.deep_view()),
{
    let ghost dv = ts.deep_view();
    let mut out: Vec<u8> = Vec::new();
    out.push(123);
    let kt = key_tunnels_bytes();
    push_enc_str(&mut out, kt.as_slice());
    out.push(58);
    out.push(91);
    let ghost header = out@;
    let mut i: usize = 0;
    proof {
        assert(dv.take(0) =~= Seq::<TunnelRec>::empty());
        assert(out@ =~= header + spec_enc_list(dv.take(0)));
    }
    while i < ts.len()
        invariant
            0 <= i <= ts@.len(),
            dv == ts.deep_view(),
            header == seq![123u8] + spec_enc_str(key_tunnels()) + seq![58u8] + seq![91u8],
            out@ == header + spec_enc_list(dv.take(i as int)),
        decreases ts@.len() - i,
    {
        proof {
            assert(dv[i as int] == ts@[i as int]@);
            assert(dv.take(i + 1).drop_last() =~= dv.take(i as int));
            assert(dv.take(i + 1) =~= dv.take(i as int).push(dv[i as int]));
            lemma_enc_list_snoc(dv.take(i as int), dv[i as int]);
        }
        if i > 0 {
            out.push(44);
        }
        push_enc_tunnel(&mut out, &ts[i]);
        proof {
            if i == 0 {
                assert(out@ =~= header + spec_enc_list(dv.take(1)));
            } else {
                assert(out@ =~= header + spec_enc_list(dv.take(i + 1)));
            }
        }
        i = i + 1;
    }
    proof {
        assert(dv.take(i as int) =~= dv);
    }
    out.push(93);
    out.push(125);
    proof {
        assert(out@ =~= spec_encode_registry(dv));
    }
    out
}


/// Index of the quote closing a string body that starts at `i`, skipping
/// backslash escapes.
pub open spec fn spec_str_end(s: Seq<u8>, i: int) -> Option<int>
    decreases s.len() - i,
{
    if i < 0 || i >= s.len() {
        None
    } else if s[i] == 34 {
        Some(i)
    } else if s[i] == 92 {
        if i + 2 <= s.len() {
            spec_str_end(s, i + 2)
        } else {
            None
        }
    } else {
        spec_str_end(s, i + 1)
    }
}

/// Undo `spec_escape`: a byte behind a backslash stands for itself.
pub open spec fn spec_unescape(s: Seq<u8>) -> Seq<u8>
    decreases s.len(),
{
    if s.len() == 0 {
        Seq::empty()
    } else if s[0] == 92 && s.len() >= 2 {
        seq![s[1]] + spec_unescape(s.skip(2))
    } else {
        seq![s[0]] + spec_unescape(s.skip(1))
    }
}

/// A quoted string at position `i`: its unescaped content and the position
/// after the closing quote.
pub open spec fn spec_parse_str_at(s: Seq<u8>, i: int) -> Option<(Seq<u8>, int)> {
    if 0 <= i < s.len() && s[i] == 34 {
        match spec_str_end(s, i + 1) {
            Some(e) => Some((spec_unescape(s.subrange(i + 1, e)), e + 1)),
            None => None,
        }
    } else {
        None
    }
}

/// The literal `tok` at position `i`: the position after it.
pub open spec fn spec_expect(s: Seq<u8>, i: int, tok: Seq<u8>) -> Option<int> {
    if 0 <= i && i + tok.len() <= s.len() && s.subrange(i, i + tok.len()) == tok {
        Some(i + tok.len())
    } else {
        None
    }
}

/// Length of the digit run starting at `i`.
pub open spec fn digit_run(s: Seq<u8>, i: int) -> int
    decreases s.len() - i,
{
    if i < 0 || i >= s.len() || !is_digit(s[i]) {
        0
    } else {
        1 + digit_run(s, i + 1)
    }
}

proof fn lemma_digit_run_bounds(s: Seq<u8>, i: int)
    requires
        0 <= i <= s.len(),
    ensures
        0 <= digit_run(s, i) <= s.len() - i,
        all_digits(s.subrange(i, i + digit_run(s, i))),
    decreases s.len() - i,
{
    if i < s.len() && is_digit(s[i]) {
        lemma_digit_run_bounds(s, i + 1);
        let d = digit_run(s, i);
        assert forall|k: int| 0 <= k < d implies is_digit(#[trigger] s.subrange(i, i + d)[k]) by {
            if k == 0 {
            } else {
                assert(s.subrange(i + 1, i + 1 + digit_run(s, i + 1))[k - 1] == s[i + k]);
            }
        }
    } else {
        assert(s.subrange(i, i) =~= Seq::<u8>::empty());
    }
}

proof fn lemma_digit_run_exact(s: Seq<u8>, i: int, j: int)
    requires
        0 <= i <= j <= s.len(),
        forall|k: int| i <= k < j ==> is_digit(#[trigger] s[k]),
        j == s.len() || !is_digit(s[j]),
    ensures
        digit_run(s, i) == j - i,
    decreases j - i,
{
    if i < j {
        lemma_digit_run_exact(s, i + 1, j);
    }
}

/// A decimal port number at position `i`: its value and the position after
/// its digits; refused when no digit stands there or the value overflows
/// sixteen bits.
pub open spec fn spec_parse_port_at(s: Seq<u8>, i: int) -> Option<(u16, int)> {
    let d = digit_run(s, i);
    if d == 0 {
        None
    } else if digits_val(s.subrange(i, i + d)) <= 65535 {
        Some((digits_val(s.subrange(i, i + d)) as u16, i + d))
    } else {
        None
    }
}

/// The key tokens of a definition object, in the order they are written.
pub open spec fn tok_obj_open() -> Seq<u8> {
    seq![123u8] + spec_enc_str(key_name()) + seq![58u8]
}

pub open spec fn tok_ssh_host() -> Seq<u8> {
    seq![44u8] + spec_enc_str(key_ssh_host()) + seq![58u8]
}

pub open spec fn tok_local_port() -> Seq<u8> {
    seq![44u8] + spec_enc_str(key_local_port()) + seq![58u8]
}

pub open spec fn tok_remote_target() -> Seq<u8> {
    seq![44u8] + spec_enc_str(key_remote_target()) + seq![58u8]
}

/// The opening of the registry object, up to and including the `[`.
pub open spec fn tok_head() -> Seq<u8> {
    seq![123u8] + spec_enc_str(key_tunnels()) + seq![58u8] + seq![91u8]
}

/// One definition object at position `i`: the definition (pid unset) and
/// the position after its closing brace.
pub open spec fn spec_parse_tunnel_at(s: Seq<u8>, i: int) -> Option<(TunnelRec, int)> {
    match spec_expect(s, i, tok_obj_open()) {
        None => None,
        Some(p1) => match spec_parse_str_at(s, p1) {
            None => None,
            Some((name, p2)) => match spec_expect(s, p2, tok_ssh_host()) {
                None => None,
                Some(p3) => match spec_parse_str_at(s, p3) {
                    None => None,
                    Some((host, p4)) => match spec_expect(s, p4, tok_local_port()) {
                        None => None,
                        Some(p5) => match spec_parse_port_at(s, p5) {
                            None => None,
                            Some((port, p6)) => match spec_expect(s, p6, tok_remote_target()) {
                                None => None,
                                Some(p7) => match spec_parse_str_at(s, p7) {
                                    None => None,
                                    Some((target, p8)) => match spec_expect(s, p8, seq![125u8]) {
                                        None => None,
                                        Some(p9) => Some(
                                            (
                                                TunnelRec {
                                                    name: name,
                                                    ssh_host: host,
                                                    local_port: port,
                                                    remote_target: target,
                                                    process: None,
                                                },
                                                p9,
                                            ),
                                        ),
                                    },
                                },
                            },
                        },
                    },
                },
            },
        },
    }
}

proof fn lemma_str_end_bounds(s: Seq<u8>, i: int)
    requires
        0 <= i <= s.len(),
    ensures
        match spec_str_end(s, i) {
            Some(e) => i <= e < s.len() && s[e] == 34,
            None => true,
        },
    decreases s.len() - i,
{
    if i < s.len() && s[i] != 34 {
        if s[i] == 92 {
            if i + 2 <= s.len() {
                lemma_str_end_bounds(s, i + 2);
            }
        } else {
            lemma_str_end_bounds(s, i + 1);
        }
    }
}

/// A parsed definition object ends strictly after it begins and within the
/// input.
proof fn lemma_parse_tunnel_advances(s: Seq<u8>, i: int)
    requires
        0 <= i,
    ensures
        match spec_parse_tunnel_at(s, i) {
            Some(tp) => i < tp.1 <= s.len(),
            None => true,
        },
{
    match spec_expect(s, i, tok_obj_open()) {
        None => {},
        Some(p1) => {
            if p1 < s.len() && s[p1] == 34 {
                                lemma_str_end_bounds(s, p1 + 1);
                            }
            match spec_parse_str_at(s, p1) {
                None => {},
                Some((_n, p2)) => {
                    match spec_expect(s, p2, tok_ssh_host()) {
                        None => {},
                        Some(p3) => {
                            if p3 < s.len() && s[p3] == 34 {
                                lemma_str_end_bounds(s, p3 + 1);
                            }
                            match spec_parse_str_at(s, p3) {
                                None => {},
                                Some((_h, p4)) => {
                                    match spec_expect(s, p4, tok_local_port()) {
                                        None => {},
                                        Some(p5) => {
                                            lemma_digit_run_bounds(s, p5);
                                            match spec_parse_port_at(s, p5) {
                                                None => {},
                                                Some((_p, p6)) => {
                                                    match spec_expect(s, p6, tok_remote_target()) {
                                                        None => {},
                                                        Some(p7) => {
                                                            if p7 < s.len() && s[p7] == 34 {
                                lemma_str_end_bounds(s, p7 + 1);
                            }
                                                        },
                                                    }
                                                },
                                            }
                                        },
                                    }
                                },
                            }
                        },
                    }
                },
            }
        },
    }
}

/// The comma-separated definition objects from position `i` on: the
/// definitions and the position after the last object.
pub open spec fn spec_parse_items_at(s: Seq<u8>, i: int) -> Option<(Seq<TunnelRec>, int)>
    decreases s.len() - i,
    via spec_parse_items_dec
{
    match spec_parse_tunnel_at(s, i) {
        None => None,
        Some((t, j)) => if 0 <= j < s.len() && s[j] == 44 {
            match spec_parse_items_at(s, j + 1) {
                None => None,
                Some((rest, k)) => Some((seq![t] + rest, k)),
            }
        } else {
            Some((seq![t], j))
        },
    }
}

#[via_fn]
proof fn spec_parse_items_dec(s: Seq<u8>, i: int) {
    if 0 <= i {
        lemma_parse_tunnel_advances(s, i);
    }
}

/// The whole registry file: the canonical form the encoder writes, with
/// nothing before or after it.
pub open spec fn spec_decode_registry(s: Seq<u8>) -> Option<Seq<TunnelRec>> {
    match spec_expect(s, 0, tok_head()) {
        None => None,
        Some(p) => if p < s.len() && s[p] == 93 {
            if p + 2 == s.len() && s[p + 1] == 125 {
                Some(Seq::empty())
            } else {
                None
            }
        } else {
            match spec_parse_items_at(s, p) {
                None => None,
                Some((ts, q)) => if spec_expect(s, q, seq![93u8] + seq![125u8]) == Some(
                    s.len() as int,
                ) {
                    Some(ts)
                } else {
                    None
                },
            }
        },
    }
}


/// Match the literal `tok` at position `i`.
fn expect_at(s: &[u8], tok: &[u8], i: usize) -> (r: Option<usize>)
    ensures
        match r {
            Some(p) => spec_expect(s@, i as int, tok@) == Some(p as int),
            None => spec_expect(s@, i as int, tok@) is None,
        },
{
    if i > s.len() || s.len() - i < tok.len() {
        return None;
    }
    let sn: usize = s.len();
    let mut j: usize = 0;
    while j < tok.len()
        invariant
            0 <= j <= tok@.len(),
            sn == s@.len(),
            i + tok@.len() <= s@.len(),
            forall|p: int| 0 <= p < j ==> s@[i + p] == #[trigger] tok@[p],
        decreases tok@.len() - j,
    {
        if s[i + j] != tok[j] {
            proof {
                assert(s@.subrange(i as int, i + tok@.len())[j as int] != tok@[j as int]);
            }
            return None;
        }
        j = j + 1;
    }
    proof {
        assert(s@.subrange(i as int, i + tok@.len()) =~= tok@);
    }
    Some(i + tok.len())
}

/// Find the quote that closes a string body starting at `start`.
fn str_end_exec(s: &[u8], start: usize) -> (r: Option<usize>)
    requires
        start <= s@.len(),
    ensures
        match r {
            Some(e) => spec_str_end(s@, start as int) == Some(e as int) && start <= e
                < s@.len(),
            None => spec_str_end(s@, start as int) is None,
        },
{
    let mut i: usize = start;
    while i < s.len()
        invariant
            start <= i <= s@.len(),
            spec_str_end(s@, start as int) == spec_str_end(s@, i as int),
        decreases s@.len() - i,
    {
        if s[i] == 34 {
            return Some(i);
        }
        if s[i] == 92 {
            if s.len() - i >= 2 {
                i = i + 2;
            } else {
                return None;
            }
        } else {
            i = i + 1;
        }
    }
    None
}

/// Undo the string escaping.
fn unescape_exec(s: &[u8]) -> (r: Vec<u8>)
    ensures
        r@ == spec_unescape(s@),
{
    let mut out: Vec<u8> = Vec::new();
    let mut i: usize = 0;
    proof {
        assert(s@.skip(0) =~= s@);
        assert(out@ =~= Seq::<u8>::empty());
    }
    while i < s.len()
        invariant
            0 <= i <= s@.len(),
            spec_unescape(s@) == out@ + spec_unescape(s@.skip(i as int)),
        decreases s@.len() - i,
    {
        let ghost rest = s@.skip(i as int);
        proof {
            assert(rest[0] == s@[i as int]);
            if rest.len() >= 2 {
                assert(rest[1] == s@[i + 1]);
            }
        }
        let ghost done = out@;
        if s[i] == 92 && s.len() - i >= 2 {
            out.push(s[i + 1]);
            proof {
                assert(rest.skip(2) =~= s@.skip(i + 2));
                assert(spec_unescape(rest) == seq![s@[i + 1]] + spec_unescape(s@.skip(i + 2)));
                assert(out@ =~= done.push(s@[i + 1]));
                assert(done.push(s@[i + 1]) + spec_unescape(s@.skip(i + 2)) =~= done + (seq![
                    s@[i + 1],
                ] + spec_unescape(s@.skip(i + 2))));
            }
            i = i + 2;
        } else {
            out.push(s[i]);
            proof {
                assert(rest.skip(1) =~= s@.skip(i + 1));
                assert(spec_unescape(rest) == seq![s@[i as int]] + spec_unescape(s@.skip(i + 1)));
                assert(out@ =~= done.push(s@[i as int]));
                assert(done.push(s@[i as int]) + spec_unescape(s@.skip(i + 1)) =~= done + (seq![
                    s@[i as int],
                ] + spec_unescape(s@.skip(i + 1))));
            }
            i = i + 1;
        }
    }
    proof {
        assert(s@.skip(i as int) =~= Seq::<u8>::empty());
        assert(out@ + Seq::<u8>::empty() =~= out@);
    }
    out
}

/// Parse a quoted string at position `i`.
fn parse_str_at_exec(s: &[u8], i: usize) -> (r: Option<(Vec<u8>, usize)>)
    ensures
        match r {
            Some(p) => spec_parse_str_at(s@, i as int) == Some((p.0@, p.1 as int)) && i < p.1
                <= s@.len(),
            None => spec_parse_str_at(s@, i as int) is None,
        },
{
    if i >= s.len() || s[i] != 34 {
        return None;
    }
    match str_end_exec(s, i + 1) {
        None => None,
        Some(e) => {
            let body: Vec<u8> = slice_part_to_vec(s, i + 1, e);
            let content = unescape_exec(body.as_slice());
            proof {
                assert(body@ =~= s@.subrange(i + 1, e as int));
            }
            Some((content, e + 1))
        },
    }
}

/// Parse a decimal port at position `i`.
fn parse_port_at_exec(s: &[u8], i: usize) -> (r: Option<(u16, usize)>)
    requires
        i <= s@.len(),
    ensures
        match r {
            Some(p) => spec_parse_port_at(s@, i as int) == Some((p.0, p.1 as int)) && i < p.1
                <= s@.len(),
            None => spec_parse_port_at(s@, i as int) is None,
        },
{
    let mut j: usize = i;
    while j < s.len() && 48 <= s[j] && s[j] <= 57
        invariant
            i <= j <= s@.len(),
            forall|k: int| i <= k < j ==> is_digit(#[trigger] s@[k]),
        decreases s@.len() - j,
    {
        j = j + 1;
    }
    proof {
        lemma_digit_run_exact(s@, i as int, j as int);
    }
    if j == i {
        return None;
    }
    let digits: Vec<u8> = slice_part_to_vec(s, i, j);
    proof {
        assert(digits@ =~= s@.subrange(i as int, j as int));
        assert(digits@.len() > 0);
        assert(all_digits(digits@));
        assert(digits@[0] != 43);
    }
    match crate::text::parse_u16_bytes(digits.as_slice()) {
        Some(v) => Some((v, j)),
        None => None,
    }
}

fn tok_obj_open_bytes() -> (r: Vec<u8>)
    ensures
        r@ == tok_obj_open(),
{
    let mut v: Vec<u8> = Vec::new();
    v.push(123);
    let k = key_name_bytes();
    push_enc_str(&mut v, k.as_slice());
    v.push(58);
    proof {
        assert(v@ =~= tok_obj_open());
    }
    v
}

fn tok_ssh_host_bytes() -> (r: Vec<u8>)
    ensures
        r@ == tok_ssh_host(),
{
    let mut v: Vec<u8> = Vec::new();
    v.push(44);
    let k = key_ssh_host_bytes();
    push_enc_str(&mut v, k.as_slice());
    v.push(58);
    proof {
        assert(v@ =~= tok_ssh_host());
    }
    v
}

fn tok_local_port_bytes() -> (r: Vec<u8>)
    ensures
        r@ == tok_local_port(),
{
    let mut v: Vec<u8> = Vec::new();
    v.push(44);
    let k = key_local_port_bytes();
    push_enc_str(&mut v, k.as_slice());
    v.push(58);
    proof {
        assert(v@ =~= tok_local_port());
    }
    v
}

fn tok_remote_target_bytes() -> (r: Vec<u8>)
    ensures
        r@ == tok_remote_target(),
{
    let mut v: Vec<u8> = Vec::new();
    v.push(44);
    let k = key_remote_target_bytes();
    push_enc_str(&mut v, k.as_slice());
    v.push(58);
    proof {
        assert(v@ =~= tok_remote_target());
    }
    v
}

fn tok_head_bytes() -> (r: Vec<u8>)
    ensures
        r@ == tok_head(),
{
    let mut v: Vec<u8> = Vec::new();
    v.push(123);
    let k = key_tunnels_bytes();
    push_enc_str(&mut v, k.as_slice());
    v.push(58);
    v.push(91);
    proof {
        assert(v@ =~= tok_head());
    }
    v
}

/// Parse one definition object at position `i`.
fn parse_tunnel_at_exec(s: &[u8], i: usize) -> (r: Option<(TunnelConfig, usize)>)
    ensures
        match r {
            Some(p) => spec_parse_tunnel_at(s@, i as int) == Some((p.0@, p.1 as int)) && i
                < p.1 <= s@.len(),
            None => spec_parse_tunnel_at(s@, i as int) is None,
        },
{
    let t_open = tok_obj_open_bytes();
    let p1: usize = match expect_at(s, t_open.as_slice(), i) {
        Some(p) => p,
        None => {
            return None;
        },
    };
    let (name, p2): (Vec<u8>, usize) = match parse_str_at_exec(s, p1) {
        Some(p) => p,
        None => {
            return None;
        },
    };
    let t_host = tok_ssh_host_bytes();
    let p3: usize = match expect_at(s, t_host.as_slice(), p2) {
        Some(p) => p,
        None => {
            return None;
        },
    };
    let (host, p4): (Vec<u8>, usize) = match parse_str_at_exec(s, p3) {
        Some(p) => p,
        None => {
            return None;
        },
    };
    let t_port = tok_local_port_bytes();
    let p5: usize = match expect_at(s, t_port.as_slice(), p4) {
        Some(p) => p,
        None => {
            return None;
        },
    };
    let (port, p6): (u16, usize) = match parse_port_at_exec(s, p5) {
        Some(p) => p,
        None => {
            return None;
        },
    };
    let t_target = tok_remote_target_bytes();
    let p7: usize = match expect_at(s, t_target.as_slice(), p6) {
        Some(p) => p,
        None => {
            return None;
        },
    };
    let (target, p8): (Vec<u8>, usize) = match parse_str_at_exec(s, p7) {
        Some(p) => p,
        None => {
            return None;
        },
    };
    let mut close: Vec<u8> = Vec::new();
    close.push(125);
    proof {
        assert(close@ =~= seq![125u8]);
    }
    let p9: usize = match expect_at(s, close.as_slice(), p8) {
        Some(p) => p,
        None => {
            return None;
        },
    };
    let t = TunnelConfig {
        name: name,
        ssh_host: host,
        local_port: port,
        remote_target: target,
        process: None,
    };
    Some((t, p9))
}

/// Parse the comma-separated definition objects from position `i` on.
fn parse_items_exec(s: &[u8], i: usize) -> (r: Option<(Vec<TunnelConfig>, usize)>)
    ensures
        match r {
            Some(p) => spec_parse_items_at(s@, i as int) == Some((p.0.deep_view(), p.1 as int)),
            None => spec_parse_items_at(s@, i as int) is None,
        },
    decreases s@.len() - i,
{
    let (t, j): (TunnelConfig, usize) = match parse_tunnel_at_exec(s, i) {
        Some(p) => p,
        None => {
            return None;
        },
    };
    if j < s.len() && s[j] == 44 {
        match parse_items_exec(s, j + 1) {
            None => None,
            Some((mut rest, k)) => {
                let ghost rdv = rest.deep_view();
                rest.insert(0, t);
                proof {
                    assert(rest.deep_view() =~= seq![t@] + rdv);
                }
                Some((rest, k))
            },
        }
    } else {
        let mut one: Vec<TunnelConfig> = Vec::new();
        one.push(t);
        proof {
            assert(one.deep_view() =~= seq![t@]);
            assert(seq![t@] + Seq::<TunnelRec>::empty() =~= seq![t@]);
        }
        Some((one, j))
    }
}

/// Read a registry file written by `encode_registry` back into its
/// definition list; anything else is refused.
pub fn decode_registry(s: &[u8]) -> (r: Option<Vec<TunnelConfig>>)
    ensures
        match r {
            Some(v) => spec_decode_registry(s@) == Some(v.deep_view()),
            None => spec_decode_registry(s@) is None,
        },
{
    let head = tok_head_bytes();
    let p: usize = match expect_at(s, head.as_slice(), 0) {
        Some(p) => p,
        None => {
            return None;
        },
    };
    if p < s.len() && s[p] == 93 {
        if s.len() - p == 2 && s[p + 1] == 125 {
            let empty: Vec<TunnelConfig> = Vec::new();
            proof {
                assert(empty.deep_view() =~= Seq::<TunnelRec>::empty());
            }
            Some(empty)
        } else {
            None
        }
    } else {
        match parse_items_exec(s, p) {
            None => None,
            Some((ts, q)) => {
                let mut tail: Vec<u8> = Vec::new();
                tail.push(93);
                tail.push(125);
                proof {
                    assert(tail@ =~= seq![93u8] + seq![125u8]);
                }
                match expect_at(s, tail.as_slice(), q) {
                    Some(end) => {
                        if end == s.len() {
                            Some(ts)
                        } else {
                            None
                        }
                    },
                    None => None,
                }
            },
        }
    }
}


/// The definitions with their transient pids dropped, as loading leaves
/// them before the pids are re-derived.
pub open spec fn clear_pids(ts: Seq<TunnelRec>) -> Seq<TunnelRec> {
    ts.map_values(|t: TunnelRec| TunnelRec { process: None, ..t })
}

/// The escaping, defined by peeling the last byte, equally peels the
/// first.
proof fn lemma_escape_front(c: Seq<u8>)
    requires
        c.len() > 0,
    ensures
        spec_escape(c) == esc_byte(c[0]) + spec_escape(c.drop_first()),
    decreases c.len(),
{
    if c.len() == 1 {
        assert(c.drop_last() =~= Seq::<u8>::empty());
        assert(c.drop_first() =~= Seq::<u8>::empty());
        assert(spec_escape(c) =~= esc_byte(c[0]) + spec_escape(c.drop_first()));
    } else {
        lemma_escape_front(c.drop_last());
        assert(c.drop_last()[0] == c[0]);
        assert(c.drop_last().drop_first() =~= c.drop_first().drop_last());
        assert(c.drop_first().last() == c.last());
        assert(spec_escape(c) =~= esc_byte(c[0]) + spec_escape(c.drop_first()));
    }
}

/// Unescaping undoes the escaping, for every byte string.
proof fn lemma_unescape_escape(c: Seq<u8>)
    ensures
        spec_unescape(spec_escape(c)) == c,
    decreases c.len(),
{
    if c.len() == 0 {
        assert(spec_escape(c) =~= Seq::<u8>::empty());
    } else {
        lemma_escape_front(c);
        let rest = c.drop_first();
        lemma_unescape_escape(rest);
        let esc = spec_escape(c);
        let er = spec_escape(rest);
        if c[0] == 34 || c[0] == 92 {
            assert(esc == seq![92u8, c[0]] + er);
            assert(esc[0] == 92 && esc[1] == c[0] && esc.len() >= 2);
            assert(esc.skip(2) =~= er);
            assert(spec_unescape(esc) == seq![c[0]] + spec_unescape(er));
        } else {
            assert(esc == seq![c[0]] + er);
            assert(esc[0] == c[0]);
            assert(esc.skip(1) =~= er);
            assert(spec_unescape(esc) == seq![c[0]] + spec_unescape(er));
        }
        assert(seq![c[0]] + rest =~= c);
    }
}

/// The quote scanner lands exactly on the quote that follows an escaped
/// string body, stepping over every escape pair inside it.
proof fn lemma_str_end_on_escaped(s: Seq<u8>, i: int, content: Seq<u8>)
    requires
        0 <= i,
        i + spec_escape(content).len() < s.len(),
        s.subrange(i, i + spec_escape(content).len()) == spec_escape(content),
        s[i + spec_escape(content).len()] == 34,
    ensures
        spec_str_end(s, i) == Some(i + spec_escape(content).len()),
    decreases content.len(),
{
    let esc = spec_escape(content);
    let el = esc.len() as int;
    if content.len() == 0 {
        assert(esc =~= Seq::<u8>::empty());
    } else {
        lemma_escape_front(content);
        let c0 = content[0];
        let rest = content.drop_first();
        let er = spec_escape(rest);
        if c0 == 34 || c0 == 92 {
            assert(esc == seq![92u8, c0] + er);
            assert(el == 2 + er.len());
            lemma_subrange_shift(s, i, esc, 0, 1);
            assert(esc.subrange(0, 1) =~= seq![92u8]);
            assert(s[i] == s.subrange(i, i + 1)[0]);
            assert(s[i] == 92);
            lemma_subrange_shift(s, i, esc, 2, el);
            assert(esc.subrange(2, el) =~= er);
            lemma_str_end_on_escaped(s, i + 2, rest);
        } else {
            assert(esc == seq![c0] + er);
            assert(el == 1 + er.len());
            lemma_subrange_shift(s, i, esc, 0, 1);
            assert(esc.subrange(0, 1) =~= seq![c0]);
            assert(s[i] == s.subrange(i, i + 1)[0]);
            assert(s[i] == c0);
            assert(c0 != 34 && c0 != 92);
            lemma_subrange_shift(s, i, esc, 1, el);
            assert(esc.subrange(1, el) =~= er);
            lemma_str_end_on_escaped(s, i + 1, rest);
        }
    }
}

/// Parsing a quoted string at the position where the encoder wrote it
/// yields the string back, whatever bytes it holds.
proof fn lemma_parse_str_on_enc(s: Seq<u8>, i: int, content: Seq<u8>)
    requires
        0 <= i,
        i + spec_enc_str(content).len() <= s.len(),
        s.subrange(i, i + spec_enc_str(content).len()) == spec_enc_str(content),
    ensures
        spec_parse_str_at(s, i) == Some((content, i + spec_enc_str(content).len())),
{
    let esc = spec_escape(content);
    let el = esc.len() as int;
    let enc = spec_enc_str(content);
    assert(enc.len() == el + 2);
    lemma_subrange_shift(s, i, enc, 0, 1);
    assert(enc.subrange(0, 1) =~= seq![34u8]);
    assert(s[i] == s.subrange(i, i + 1)[0]);
    assert(s[i] == 34);
    lemma_subrange_shift(s, i, enc, 1, 1 + el);
    assert(enc.subrange(1, 1 + el) =~= esc);
    lemma_subrange_shift(s, i, enc, 1 + el, el + 2);
    assert(enc.subrange(1 + el, el + 2) =~= seq![34u8]);
    assert(s[i + 1 + el] == s.subrange(i + 1 + el, i + el + 2)[0]);
    assert(s[i + 1 + el] == 34);
    lemma_str_end_on_escaped(s, i + 1, content);
    assert(spec_str_end(s, i + 1) == Some(i + 1 + el));
    lemma_unescape_escape(content);
    assert(spec_unescape(s.subrange(i + 1, i + 1 + el)) == content);
    assert(i + el + 2 == i + spec_enc_str(content).len());
}

/// The decimal digits of a value, written by the encoder, read back as
/// that value.
proof fn lemma_dec_u_digits(v: int)
    requires
        0 <= v,
    ensures
        all_digits(spec_dec_u(v)),
        digits_val(spec_dec_u(v)) == v,
        spec_dec_u(v).len() >= 1,
    decreases v,
{
    if v < 10 {
        assert(spec_dec_u(v) =~= seq![(v + 48) as u8]);
        assert(spec_dec_u(v).drop_last() =~= Seq::<u8>::empty());
        assert(spec_dec_u(v).last() == (v + 48) as u8);
        assert(digits_val(spec_dec_u(v).drop_last()) == 0);
        assert(digits_val(spec_dec_u(v)) == 0 * 10 + (((v + 48) as u8) - 48));
    } else {
        lemma_dec_u_digits(v / 10);
        let d = spec_dec_u(v);
        assert(d == spec_dec_u(v / 10).push((v % 10 + 48) as u8));
        assert(d.drop_last() =~= spec_dec_u(v / 10));
        assert(d.last() == (v % 10 + 48) as u8);
        assert(digits_val(d) == digits_val(spec_dec_u(v / 10)) * 10 + (v % 10));
        assert forall|k: int| 0 <= k < d.len() implies is_digit(#[trigger] d[k]) by {
            if k < d.len() - 1 {
                assert(d[k] == spec_dec_u(v / 10)[k]);
            }
        }
    }
}

/// Parsing a port number at the position where the encoder wrote it, with
/// a non-digit byte following, yields the port back.
proof fn lemma_parse_port_on_enc(s: Seq<u8>, i: int, v: u16)
    requires
        0 <= i,
        i + spec_dec_u(v as int).len() < s.len(),
        s.subrange(i, i + spec_dec_u(v as int).len()) == spec_dec_u(v as int),
        !is_digit(s[i + spec_dec_u(v as int).len()]),
    ensures
        spec_parse_port_at(s, i) == Some((v, i + spec_dec_u(v as int).len())),
{
    lemma_dec_u_digits(v as int);
    let d = spec_dec_u(v as int);
    let n = d.len() as int;
    assert forall|k: int| i <= k < i + n implies is_digit(#[trigger] s[k]) by {
        assert(s[k] == s.subrange(i, i + n)[k - i]);
        assert(s[k] == d[k - i]);
    }
    lemma_digit_run_exact(s, i, i + n);
    assert(digits_val(s.subrange(i, i + n)) == v as int);
}

/// Parsing a definition object at the position where the encoder wrote it
/// yields the definition back, with the pid unset.
#[verifier::rlimit(100)]
#[verifier::spinoff_prover]
proof fn lemma_parse_tunnel_on_enc(s: Seq<u8>, i: int, t: TunnelRec)
    requires
        0 <= i,
        i + spec_enc_tunnel(t).len() <= s.len(),
        s.subrange(i, i + spec_enc_tunnel(t).len()) == spec_enc_tunnel(t),
    ensures
        spec_parse_tunnel_at(s, i) == Some(
            (TunnelRec { process: None, ..t }, i + spec_enc_tunnel(t).len()),
        ),
{
    let e = spec_enc_tunnel(t);
    let a1 = tok_obj_open();
    let n1 = spec_enc_str(t.name);
    let a2 = tok_ssh_host();
    let n2 = spec_enc_str(t.ssh_host);
    let a3 = tok_local_port();
    let n3 = spec_dec_u(t.local_port as int);
    let a4 = tok_remote_target();
    let n4 = spec_enc_str(t.remote_target);
    let a5 = seq![125u8];
    let c1 = a1 + n1;
    let c2 = c1 + a2;
    let c3 = c2 + n2;
    let c4 = c3 + a3;
    let c5 = c4 + n3;
    let c6 = c5 + a4;
    let c7 = c6 + n4;
    let c8 = c7 + a5;
    assert(e =~= c8);
    let q1 = i + a1.len();
    let q2 = q1 + n1.len();
    let q3 = q2 + a2.len();
    let q4 = q3 + n2.len();
    let q5 = q4 + a3.len();
    let q6 = q5 + n3.len();
    let q7 = q6 + a4.len();
    let q8 = q7 + n4.len();
    let q9 = q8 + 1;
    assert forall|k: int| i <= k < i + e.len() implies #[trigger] s[k] == c8[k - i] by {
        assert(s[k] == s.subrange(i, i + e.len())[k - i]);
    }
    assert(s.subrange(i, q1) =~= a1);
    assert(spec_expect(s, i, a1) == Some(q1));
    assert(s.subrange(q1, q2) =~= n1);
    lemma_parse_str_on_enc(s, q1, t.name);
    assert(s.subrange(q2, q3) =~= a2);
    assert(spec_expect(s, q2, a2) == Some(q3));
    assert(s.subrange(q3, q4) =~= n2);
    lemma_parse_str_on_enc(s, q3, t.ssh_host);
    assert(s.subrange(q4, q5) =~= a3);
    assert(spec_expect(s, q4, a3) == Some(q5));
    assert(s.subrange(q5, q6) =~= n3);
    assert(s[q6] == 44);
    lemma_parse_port_on_enc(s, q5, t.local_port);
    assert(s.subrange(q6, q7) =~= a4);
    assert(spec_expect(s, q6, a4) == Some(q7));
    assert(s.subrange(q7, q8) =~= n4);
    lemma_parse_str_on_enc(s, q7, t.remote_target);
    assert(s.subrange(q8, q9) =~= a5);
    assert(spec_expect(s, q8, a5) == Some(q9));
    assert(q9 == i + e.len());
}

/// A window of an already-matched region equals the matching window of
/// the matched sequence.
proof fn lemma_subrange_shift(s: Seq<u8>, i: int, whole: Seq<u8>, a: int, b: int)
    requires
        0 <= i,
        i + whole.len() <= s.len(),
        s.subrange(i, i + whole.len()) == whole,
        0 <= a <= b <= whole.len(),
    ensures
        s.subrange(i + a, i + b) == whole.subrange(a, b),
{
    assert forall|m: int| 0 <= m < b - a implies s.subrange(i + a, i + b)[m] == whole.subrange(
        a,
        b,
    )[m] by {
        assert(s[i + a + m] == s.subrange(i, i + whole.len())[a + m]);
    }
    assert(s.subrange(i + a, i + b) =~= whole.subrange(a, b));
}

/// Parsing the array body at the position where the encoder wrote it
/// yields the definitions back, in order.
#[verifier::rlimit(100)]
#[verifier::spinoff_prover]
proof fn lemma_parse_items_on_enc(s: Seq<u8>, i: int, ts: Seq<TunnelRec>)
    requires
        ts.len() >= 1,
        0 <= i,
        i + spec_enc_list(ts).len() < s.len(),
        s.subrange(i, i + spec_enc_list(ts).len()) == spec_enc_list(ts),
        s[i + spec_enc_list(ts).len()] != 44,
    ensures
        spec_parse_items_at(s, i) == Some((clear_pids(ts), i + spec_enc_list(ts).len())),
    decreases ts.len(),
{
    let l = spec_enc_list(ts);
    let t0 = ts.first();
    let e0 = spec_enc_tunnel(t0);
    if ts.len() == 1 {
        assert(l == e0);
        lemma_parse_tunnel_on_enc(s, i, t0);
        let j = i + e0.len();
        assert(s[j] != 44);
        assert(clear_pids(ts) =~= seq![TunnelRec { process: None, ..t0 }]);
    } else {
        let rest = ts.drop_first();
        let lr = spec_enc_list(rest);
        let n0 = e0.len() as int;
        let nl = l.len() as int;
        assert(l == e0 + seq![44u8] + lr);
        assert(l.subrange(0, n0) =~= e0);
        lemma_subrange_shift(s, i, l, 0, n0);
        lemma_parse_tunnel_on_enc(s, i, t0);
        let j = i + n0;
        lemma_subrange_shift(s, i, l, n0, n0 + 1);
        assert(l.subrange(n0, n0 + 1) =~= seq![44u8]);
        assert(s[j] == s.subrange(j, j + 1)[0]);
        assert(s[j] == 44);
        lemma_subrange_shift(s, i, l, n0 + 1, nl);
        assert(l.subrange(n0 + 1, nl) =~= lr);
        assert(s.subrange(j + 1, j + 1 + lr.len()) == lr);
        assert(j + 1 + lr.len() == i + nl);
        assert(forall|k: int| 0 <= k < rest.len() ==> rest[k] == ts[k + 1]);
        lemma_parse_items_on_enc(s, j + 1, rest);
        assert(spec_parse_items_at(s, i) == Some(
            (seq![TunnelRec { process: None, ..t0 }] + clear_pids(rest), i + l.len()),
        ));
        assert(seq![TunnelRec { process: None, ..t0 }] + clear_pids(rest) =~= clear_pids(ts));
    }
}

/// Round trip: a registry written by the encoder and read back by the
/// decoder yields the same definitions in the same order, with the
/// transient pids dropped.
pub proof fn lemma_registry_roundtrip(ts: Seq<TunnelRec>)
    ensures
        spec_decode_registry(spec_encode_registry(ts)) == Some(clear_pids(ts)),
{
    let s = spec_encode_registry(ts);
    let head = tok_head();
    let l = spec_enc_list(ts);
    assert(s =~= head + l + seq![93u8] + seq![125u8]);
    let p = head.len() as int;
    assert(s.subrange(0, p) =~= head);
    assert(spec_expect(s, 0, head) == Some(p));
    if ts.len() == 0 {
        assert(l.len() == 0);
        assert(s[p] == 93 && s[p + 1] == 125 && p + 2 == s.len());
        assert(clear_pids(ts) =~= Seq::<TunnelRec>::empty());
    } else {
        assert(spec_enc_tunnel(ts.first())[0] == 123);
        assert(l == spec_enc_list(ts));
        assert(l[0] == 123);
        assert(s[p] == l[0]);
        assert(s.subrange(p, p + l.len()) =~= l);
        assert(s[p + l.len()] == 93);
        lemma_parse_items_on_enc(s, p, ts);
        let q = p + l.len();
        assert(s.subrange(q, q + 2) =~= seq![93u8] + seq![125u8]);
        assert(spec_expect(s, q, seq![93u8] + seq![125u8]) == Some(s.len() as int));
    }
}

} // verus!
