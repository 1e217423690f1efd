//! Port discovery engine: parses the output of the socket-listing tool into
//! normalized records, deduplicates them on `(port, pid, state)` and sorts
//! them by port. The tool itself is invoked by the surrounding program; every
//! function here works on the captured output bytes.

use vstd::prelude::*;
use crate::text::{
    spec_tokens, spec_find_sub, spec_rfind_byte, spec_contains_sub, spec_parse_u16,
    spec_parse_i32, spec_lines, tokenize, find_sub, find_byte, rfind_byte, contains_sub,
    parse_u16_bytes, parse_i32_bytes, lines_of, slice_part_to_vec, match_at,
};

verus! {

/// Transport protocol of an observed socket.
#[derive(Clone, Copy, Debug, PartialEq, Eq, Structural)]
pub enum Protocol {
    Tcp,
    Udp,
    Unknown,
}

/// Connection state of an observed socket.
#[derive(Clone, Copy, Debug, PartialEq, Eq, Structural)]
pub enum SockState {
    Listen,
    Established,
    Unknown,
}

/// One observed socket.
#[derive(Debug)]
pub struct PortInfo {
    pub port: u16,
    pub pid: i32,
    pub process_name: Vec<u8>,
    pub protocol: Protocol,
    pub state: SockState,
    pub local_address: Vec<u8>,
    pub foreign_address: Vec<u8>,
}

/// Mathematical image of a `PortInfo`.
#[verifier::ext_equal]
pub ghost struct PortRec {
    pub port: u16,
    pub pid: i32,
    pub process_name: Seq<u8>,
    pub protocol: Protocol,
    pub state: SockState,
    pub local_address: Seq<u8>,
    pub foreign_address: Seq<u8>,
}

impl View for PortInfo {
    type V = PortRec;

    open spec fn view(&self) -> PortRec {
        PortRec {
            port: self.port,
            pid: self.pid,
            process_name: self.process_name@,
            protocol: self.protocol,
            state: self.state,
            local_address: self.local_address@,
            foreign_address: self.foreign_address@,
        }
    }
}

impl DeepView for PortInfo {
    type V = PortRec;

    open spec fn deep_view(&self) -> PortRec {
        self.view()
    }
}

impl PortInfo {
    /// Field-by-field copy.
    pub fn duplicate(&self) -> (r: PortInfo)
        ensures
            r@ == self@,
    {
        let r = PortInfo {
            port: self.port,
            pid: self.pid,
            process_name: slice_part_to_vec(
                self.process_name.as_slice(),
                0,
                self.process_name.len(),
            ),
            protocol: self.protocol,
            state: self.state,
            local_address: slice_part_to_vec(
                self.local_address.as_slice(),
                0,
                self.local_address.len(),
            ),
            foreign_address: slice_part_to_vec(
                self.foreign_address.as_slice(),
                0,
                self.foreign_address.len(),
            ),
        };
        proof {
            assert(r.process_name@ =~= self.process_name@);
            assert(r.local_address@ =~= self.local_address@);
            assert(r.foreign_address@ =~= self.foreign_address@);
            assert(r@ =~= self@);
        }
        r
    }
}

/// The bytes of `"TCP"`.
pub open spec fn tcp_mark() -> Seq<u8> {
    seq![84u8, 67u8, 80u8]
}

/// The bytes of `"UDP"`.
pub open spec fn udp_mark() -> Seq<u8> {
    seq![85u8, 68u8, 80u8]
}

/// The bytes of `"->"`, the separator of an established connection's
/// local and remote endpoints.
pub open spec fn arrow_mark() -> Seq<u8> {
    seq![45u8, 62u8]
}

/// The bytes of `"LISTEN"`.
pub open spec fn listen_mark() -> Seq<u8> {
    seq![76u8, 73u8, 83u8, 84u8, 69u8, 78u8]
}

/// The bytes of `"ESTABLISHED"`.
pub open spec fn established_mark() -> Seq<u8> {
    seq![69u8, 83u8, 84u8, 65u8, 66u8, 76u8, 73u8, 83u8, 72u8, 69u8, 68u8]
}

fn arrow_bytes() -> (r: Vec<u8>)
    ensures
        r@ == arrow_mark(),
{
    let mut v: Vec<u8> = Vec::new();
    v.push(45);
    v.push(62);
    proof {
        assert(v@ =~= arrow_mark());
    }
    v
}

fn tcp_bytes() -> (r: Vec<u8>)
    ensures
        r@ == tcp_mark(),
{
    let mut v: Vec<u8> = Vec::new();
    v.push(84);
    v.push(67);
    v.push(80);
    proof {
        assert(v@ =~= tcp_mark());
    }
    v
}

fn udp_bytes() -> (r: Vec<u8>)
    ensures
        r@ == udp_mark(),
{
    let mut v: Vec<u8> = Vec::new();
    v.push(85);
    v.push(68);
    v.push(80);
    proof {
        assert(v@ =~= udp_mark());
    }
    v
}

fn listen_bytes() -> (r: Vec<u8>)
    ensures
        r@ == listen_mark(),
{
    let mut v: Vec<u8> = Vec::new();
    v.push(76);
    v.push(73);
    v.push(83);
    v.push(84);
    v.push(69);
    v.push(78);
    proof {
        assert(v@ =~= listen_mark());
    }
    v
}

fn established_bytes() -> (r: Vec<u8>)
    ensures
        r@ == established_mark(),
{
    let mut v: Vec<u8> = Vec::new();
    v.push(69);
    v.push(83);
    v.push(84);
    v.push(65);
    v.push(66);
    v.push(76);
    v.push(73);
    v.push(83);
    v.push(72);
    v.push(69);
    v.push(68);
    proof {
        assert(v@ =~= established_mark());
    }
    v
}

/// The address grammar of the listing tool's NAME column: either a
/// bracketed address `[addr]:port`, or an unbracketed one split at its last
/// colon, with a parenthesized annotation after the port tolerated.
pub open spec fn spec_parse_address_port(addr: Seq<u8>) -> Option<(Seq<u8>, u16)> {
    if addr.len() > 0 && addr[0] == 91 {
        match spec_find_sub(addr, seq![93u8]) {
            Some(be) => if be + 2 <= addr.len() {
                match spec_parse_u16(addr.skip(be + 2)) {
                    Some(p) => Some((addr.subrange(1, be), p)),
                    None => None,
                }
            } else {
                None
            },
            None => None,
        }
    } else {
        match spec_rfind_byte(addr, 58) {
            Some(lc) => {
                let ps = addr.skip(lc + 1);
                let cut = match spec_find_sub(ps, seq![40u8]) {
                    Some(c) => c,
                    None => ps.len() as int,
                };
                match spec_parse_u16(ps.take(cut)) {
                    Some(p) => Some((addr.take(lc), p)),
                    None => None,
                }
            },
            None => None,
        }
    }
}

/// Split an address descriptor into host part and numeric port.
///
/// Bracketed form: `[::1]:8080` gives `::1` and `8080`. Unbracketed form is
/// split at the last colon, and the port may carry a parenthesized state
/// annotation: `127.0.0.1:443(LISTEN)` gives `127.0.0.1` and `443`.
pub fn parse_address_port(addr: &[u8]) -> (r: Option<(Vec<u8>, u16)>)
    ensures
        match r {
            Some(ap) => spec_parse_address_port(addr@) == Some((ap.0@, ap.1)),
            None => spec_parse_address_port(addr@) is None,
        },
{
    if addr.len() > 0 && addr[0] == 91 {
        match find_byte(addr, 93) {
            Some(be) => {
                if addr.len() - be >= 2 {
                    let ghost ps = addr@.skip(be + 2);
                    let port_sl: Vec<u8> = slice_part_to_vec(addr, be + 2, addr.len());
                    proof {
                        assert(port_sl@ =~= ps);
                    }
                    match parse_u16_bytes(port_sl.as_slice()) {
                        Some(p) => {
                            let ip: Vec<u8> = slice_part_to_vec(addr, 1, be);
                            Some((ip, p))
                        },
                        None => None,
                    }
                } else {
                    None
                }
            },
            None => None,
        }
    } else {
        match rfind_byte(addr, 58) {
            Some(lc) => {
                let ghost ps = addr@.skip(lc + 1);
                let rest: Vec<u8> = slice_part_to_vec(addr, lc + 1, addr.len());
                proof {
                    assert(rest@ =~= ps);
                }
                let cut: usize = match find_byte(rest.as_slice(), 40) {
                    Some(c) => c,
                    None => rest.len(),
                };
                let port_sl: Vec<u8> = slice_part_to_vec(rest.as_slice(), 0, cut);
                proof {
                    assert(port_sl@ =~= ps.take(cut as int));
                }
                match parse_u16_bytes(port_sl.as_slice()) {
                    Some(p) => {
                        let ip: Vec<u8> = slice_part_to_vec(addr, 0, lc);
                        proof {
                            assert(ip@ =~= addr@.take(lc as int));
                        }
                        Some((ip, p))
                    },
                    None => None,
                }
            },
            None => None,
        }
    }
}


/// Protocol inference: substring match against the two candidate type
/// columns, trying `TCP` in both before `UDP` in both.
pub open spec fn spec_protocol(toks: Seq<Seq<u8>>) -> Protocol
    recommends
        toks.len() >= 8,
{
    if spec_contains_sub(toks[4], tcp_mark()) || spec_contains_sub(toks[7], tcp_mark()) {
        Protocol::Tcp
    } else if spec_contains_sub(toks[4], udp_mark()) || spec_contains_sub(toks[7], udp_mark()) {
        Protocol::Udp
    } else {
        Protocol::Unknown
    }
}

/// State inference, in priority order: an arrow in the address descriptor,
/// `LISTEN` in any field, `ESTABLISHED` in any field, `LISTEN` in the field
/// before the address descriptor, else unknown.
pub open spec fn spec_state(toks: Seq<Seq<u8>>) -> SockState
    recommends
        toks.len() >= 2,
{
    if spec_contains_sub(toks[toks.len() - 1], arrow_mark()) {
        SockState::Established
    } else if exists|i: int|
        0 <= i < toks.len() && spec_contains_sub(#[trigger] toks[i], listen_mark()) {
        SockState::Listen
    } else if exists|i: int|
        0 <= i < toks.len() && spec_contains_sub(#[trigger] toks[i], established_mark()) {
        SockState::Established
    } else if spec_contains_sub(toks[toks.len() - 2], listen_mark()) {
        SockState::Listen
    } else {
        SockState::Unknown
    }
}

/// Remote endpoint of an established connection: the segment after the
/// first arrow, up to the next arrow if any; empty when there is no arrow.
pub open spec fn spec_foreign(name: Seq<u8>) -> Seq<u8> {
    match spec_find_sub(name, arrow_mark()) {
        Some(a) => {
            let rest = name.skip(a + 2);
            match spec_find_sub(rest, arrow_mark()) {
                Some(b) => rest.take(b),
                None => rest,
            }
        },
        None => Seq::empty(),
    }
}

/// One parsed listing line: at least nine fields, a numeric pid in the
/// second, and a parseable address descriptor in the last.
pub open spec fn spec_parse_lsof_line(line: Seq<u8>) -> Option<PortRec> {
    let toks = spec_tokens(line);
    if toks.len() < 9 {
        None
    } else {
        match spec_parse_i32(toks[1]) {
            None => None,
            Some(pid) => {
                let name = toks[toks.len() - 1];
                let addr_part = match spec_find_sub(name, arrow_mark()) {
                    Some(a) => name.take(a),
                    None => name,
                };
                match spec_parse_address_port(addr_part) {
                    None => None,
                    Some(ap) => Some(
                        PortRec {
                            port: ap.1,
                            pid: pid,
                            process_name: toks[0],
                            protocol: spec_protocol(toks),
                            state: spec_state(toks),
                            local_address: ap.0,
                            foreign_address: spec_foreign(name),
                        },
                    ),
                }
            },
        }
    }
}

/// Line parsing is total — no input can make it fail to terminate or
/// trap — and every record it produces carries a port within the
/// sixteen-bit range.
pub proof fn lemma_parsed_port_in_range(line: Seq<u8>)
    ensures
        match spec_parse_lsof_line(line) {
            Some(r) => 0 <= r.port <= 65535,
            None => true,
        },
{
}

/// Does any field of `toks` contain `pat`?
fn any_contains(toks: &Vec<Vec<u8>>, pat: &[u8]) -> (r: bool)
    ensures
        r == exists|i: int|
            0 <= i < toks.deep_view().len() && spec_contains_sub(
                #[trigger] toks.deep_view()[i],
                pat@,
            ),
{
    let mut i: usize = 0;
    while i < toks.len()
        invariant
            0 <= i <= toks@.len(),
            forall|p: int|
                0 <= p < i ==> !spec_contains_sub(#[trigger] toks.deep_view()[p], pat@),
        decreases toks@.len() - i,
    {
        proof {
            assert(toks.deep_view()[i as int] =~= toks@[i as int]@);
        }
        if contains_sub(toks[i].as_slice(), pat) {
            return true;
        }
        i = i + 1;
    }
    false
}

/// Executable protocol inference over the token list.
fn infer_protocol(toks: &Vec<Vec<u8>>) -> (r: Protocol)
    requires
        toks.deep_view().len() >= 8,
    ensures
        r == spec_protocol(toks.deep_view()),
{
    proof {
        assert(toks.deep_view()[4] =~= toks@[4]@);
        assert(toks.deep_view()[7] =~= toks@[7]@);
    }
    let tcp = tcp_bytes();
    let udp = udp_bytes();
    if contains_sub(toks[4].as_slice(), tcp.as_slice()) || contains_sub(
        toks[7].as_slice(),
        tcp.as_slice(),
    ) {
        Protocol::Tcp
    } else if contains_sub(toks[4].as_slice(), udp.as_slice()) || contains_sub(
        toks[7].as_slice(),
        udp.as_slice(),
    ) {
        Protocol::Udp
    } else {
        Protocol::Unknown
    }
}

/// Executable state inference over the token list.
fn infer_state(toks: &Vec<Vec<u8>>) -> (r: SockState)
    requires
        toks.deep_view().len() >= 2,
    ensures
        r == spec_state(toks.deep_view()),
{
    let n: usize = toks.len();
    proof {
        assert(toks.deep_view()[n - 1] =~= toks@[n - 1]@);
        assert(toks.deep_view()[n - 2] =~= toks@[n - 2]@);
    }
    let arrow = arrow_bytes();
    let listen = listen_bytes();
    let established = established_bytes();
    if contains_sub(toks[n - 1].as_slice(), arrow.as_slice()) {
        SockState::Established
    } else if any_contains(toks, listen.as_slice()) {
        SockState::Listen
    } else if any_contains(toks, established.as_slice()) {
        SockState::Established
    } else if contains_sub(toks[n - 2].as_slice(), listen.as_slice()) {
        SockState::Listen
    } else {
        SockState::Unknown
    }
}

/// Executable remote-endpoint extraction from the address descriptor.
fn foreign_of(name: &[u8]) -> (r: Vec<u8>)
    ensures
        r@ == spec_foreign(name@),
{
    let arrow = arrow_bytes();
    let nlen: usize = name.len();
    match find_sub(name, arrow.as_slice()) {
        Some(a) => {
            proof {
                assert(match_at(name@, arrow_mark(), a as int));
                assert(a + 2 <= nlen);
            }
            let rest: Vec<u8> = slice_part_to_vec(name, a + 2, nlen);
            proof {
                assert(rest@ =~= name@.skip(a + 2));
            }
            match find_sub(rest.as_slice(), arrow.as_slice()) {
                Some(b) => {
                    let out: Vec<u8> = slice_part_to_vec(rest.as_slice(), 0, b);
                    proof {
                        assert(out@ =~= rest@.take(b as int));
                    }
                    out
                },
                None => rest,
            }
        },
        None => Vec::new(),
    }
}

/// Parse one output line of the listing tool.
///
/// A line with fewer than nine whitespace fields, a non-numeric pid field or
/// an unparsable address descriptor yields `None`; such lines are expected
/// and skipped by the callers.
pub fn parse_lsof_line(line: &[u8]) -> (r: Option<PortInfo>)
    ensures
        match r {
            Some(p) => spec_parse_lsof_line(line@) == Some(p@),
            None => spec_parse_lsof_line(line@) is None,
        },
{
    let toks: Vec<Vec<u8>> = tokenize(line);
    let ghost tv = spec_tokens(line@);
    proof {
        assert(tv.len() == toks@.len());
    }
    if toks.len() < 9 {
        return None;
    }
    proof {
        assert(toks.deep_view()[1] =~= toks@[1]@);
        assert(toks.deep_view()[0] =~= toks@[0]@);
        assert(toks.deep_view()[toks@.len() - 1] =~= toks@[toks@.len() - 1]@);
    }
    let pid: i32 = match parse_i32_bytes(toks[1].as_slice()) {
        Some(p) => p,
        None => {
            return None;
        },
    };
    let nidx: usize = toks.len() - 1;
    let arrow = arrow_bytes();
    let name: &Vec<u8> = &toks[nidx];
    let ghost spec_addr = (match spec_find_sub(name@, arrow_mark()) {
        Some(a) => name@.take(a),
        None => name@,
    });
    let addr_part: Vec<u8> = match find_sub(name.as_slice(), arrow.as_slice()) {
        Some(a) => {
            let v = slice_part_to_vec(name.as_slice(), 0, a);
            proof {
                assert(v@ =~= name@.take(a as int));
            }
            v
        },
        None => {
            let v = slice_part_to_vec(name.as_slice(), 0, name.len());
            proof {
                assert(v@ =~= name@);
            }
            v
        },
    };
    proof {
        assert(addr_part@ == spec_addr);
        assert(name@ =~= tv[tv.len() - 1]);
    }
    let ap: (Vec<u8>, u16) = match parse_address_port(addr_part.as_slice()) {
        Some(ap) => ap,
        None => {
            return None;
        },
    };
    let protocol = infer_protocol(&toks);
    let state = infer_state(&toks);
    let foreign = foreign_of(name.as_slice());
    let process_name: Vec<u8> = slice_part_to_vec(toks[0].as_slice(), 0, toks[0].len());
    proof {
        assert(process_name@ =~= tv[0]);
    }
    let rec = PortInfo {
        port: ap.1,
        pid: pid,
        process_name: process_name,
        protocol: protocol,
        state: state,
        local_address: ap.0,
        foreign_address: foreign,
    };
    proof {
        assert(tv == toks.deep_view());
        assert(rec@.process_name == tv[0]);
        assert(rec@.local_address == ap.0@);
        assert(rec@.foreign_address == spec_foreign(tv[tv.len() - 1]));
        assert(rec@.protocol == spec_protocol(tv));
        assert(rec@.state == spec_state(tv));
        assert(spec_parse_lsof_line(line@) == Some(rec@));
    }
    Some(rec)
}


/// The deduplication key: two records collide when port, pid and state all
/// agree.
pub open spec fn key_eq(a: PortRec, b: PortRec) -> bool {
    a.port == b.port && a.pid == b.pid && a.state == b.state
}

/// Everything after the header line.
pub open spec fn spec_tail(s: Seq<Seq<u8>>) -> Seq<Seq<u8>> {
    if s.len() == 0 {
        s
    } else {
        s.drop_first()
    }
}

/// The records of the parseable lines, in input order.
pub open spec fn spec_parsed(lines: Seq<Seq<u8>>) -> Seq<PortRec>
    decreases lines.len(),
{
    if lines.len() == 0 {
        Seq::empty()
    } else {
        match spec_parse_lsof_line(lines.first()) {
            Some(r) => seq![r] + spec_parsed(lines.drop_first()),
            None => spec_parsed(lines.drop_first()),
        }
    }
}

/// First-occurrence-wins deduplication on the `(port, pid, state)` key.
pub open spec fn spec_dedup(s: Seq<PortRec>) -> Seq<PortRec>
    decreases s.len(),
{
    if s.len() == 0 {
        Seq::empty()
    } else {
        let rest = spec_dedup(s.drop_last());
        if exists|j: int| 0 <= j < rest.len() && key_eq(#[trigger] rest[j], s.last()) {
            rest
        } else {
            rest.push(s.last())
        }
    }
}

/// No two records of `s` share the deduplication key.
pub open spec fn key_distinct(s: Seq<PortRec>) -> bool {
    forall|i: int, j: int|
        0 <= i < j < s.len() ==> !key_eq(#[trigger] s[i], #[trigger] s[j])
}

/// Ports never decrease along `s`.
pub open spec fn sorted_by_port(s: Seq<PortRec>) -> bool {
    forall|i: int, j: int| 0 <= i < j < s.len() ==> (#[trigger] s[i]).port <= (#[trigger] s[j]).port
}

/// Deduplication leaves no colliding pair behind.
pub proof fn lemma_dedup_distinct(s: Seq<PortRec>)
    ensures
        key_distinct(spec_dedup(s)),
    decreases s.len(),
{
    if s.len() > 0 {
        lemma_dedup_distinct(s.drop_last());
        let rest = spec_dedup(s.drop_last());
        let d = spec_dedup(s);
        if exists|j: int| 0 <= j < rest.len() && key_eq(#[trigger] rest[j], s.last()) {
        } else {
            assert forall|i: int, j: int| 0 <= i < j < d.len() implies !key_eq(
                #[trigger] d[i],
                #[trigger] d[j],
            ) by {
                if j < rest.len() {
                    assert(d[i] == rest[i] && d[j] == rest[j]);
                } else {
                    assert(d[j] == s.last());
                    assert(d[i] == rest[i]);
                }
            }
        }
    }
}

/// Does some record of `v` collide with `p` on the deduplication key?
fn has_key(v: &Vec<PortInfo>, p: &PortInfo) -> (r: bool)
    ensures
        r == exists|j: int|
            0 <= j < v.deep_view().len() && key_eq(#[trigger] v.deep_view()[j], p@),
{
    let mut i: usize = 0;
    while i < v.len()
        invariant
            0 <= i <= v@.len(),
            forall|j: int| 0 <= j < i ==> !key_eq(#[trigger] v.deep_view()[j], p@),
        decreases v@.len() - i,
    {
        proof {
            assert(v.deep_view()[i as int] == v@[i as int]@);
        }
        let e = &v[i];
        if e.port == p.port && e.pid == p.pid && e.state == p.state {
            return true;
        }
        i = i + 1;
    }
    false
}

/// First-occurrence-wins deduplication of parsed records.
fn dedup_records(src: &Vec<PortInfo>) -> (r: Vec<PortInfo>)
    ensures
        r.deep_view() == spec_dedup(src.deep_view()),
{
    let mut out: Vec<PortInfo> = Vec::new();
    let mut i: usize = 0;
    proof {
        assert(src.deep_view().take(0) =~= Seq::<PortRec>::empty());
        assert(out.deep_view() =~= spec_dedup(src.deep_view().take(0)));
    }
    while i < src.len()
        invariant
            0 <= i <= src@.len(),
            out.deep_view() == spec_dedup(src.deep_view().take(i as int)),
        decreases src@.len() - i,
    {
        let ghost dv = src.deep_view();
        proof {
            assert(dv.take(i + 1).drop_last() =~= dv.take(i as int));
            assert(dv.take(i + 1).last() == dv[i as int]);
            assert(dv[i as int] == src@[i as int]@);
        }
        let e = &src[i];
        let ghost done = out.deep_view();
        if !has_key(&out, e) {
            let copy = e.duplicate();
            out.push(copy);
            proof {
                assert(out.deep_view() =~= done.push(copy@));
            }
        }
        i = i + 1;
    }
    proof {
        assert(src.deep_view().take(i as int) =~= src.deep_view());
    }
    out
}

/// Insert a record into a port-sorted sequence after every record whose
/// port is the same or smaller — the stable insertion step.
pub open spec fn spec_insert_by_port(s: Seq<PortRec>, x: PortRec) -> Seq<PortRec>
    decreases s.len(),
{
    if s.len() == 0 {
        seq![x]
    } else if s.last().port <= x.port {
        s.push(x)
    } else {
        spec_insert_by_port(s.drop_last(), x).push(s.last())
    }
}

/// Stable sort by port: records are inserted in input order, each after
/// all records with the same or a smaller port, so records with equal
/// ports keep their input order.
pub open spec fn spec_sort_by_port(s: Seq<PortRec>) -> Seq<PortRec>
    decreases s.len(),
{
    if s.len() == 0 {
        Seq::empty()
    } else {
        spec_insert_by_port(spec_sort_by_port(s.drop_last()), s.last())
    }
}

/// The stable insertion step places the new record at exactly the index
/// that separates the same-or-smaller ports from the strictly greater.
proof fn lemma_insert_by_port_at(s: Seq<PortRec>, x: PortRec, k: int)
    requires
        0 <= k <= s.len(),
        forall|p: int| k <= p < s.len() ==> (#[trigger] s[p]).port > x.port,
        k > 0 ==> s[k - 1].port <= x.port,
    ensures
        spec_insert_by_port(s, x) == s.insert(k, x),
    decreases s.len() - k,
{
    if s.len() == 0 {
        assert(s.insert(0, x) =~= seq![x]);
    } else if k == s.len() {
        assert(s.last().port <= x.port);
        assert(s.insert(k, x) =~= s.push(x));
    } else {
        assert(s.last().port > x.port);
        assert(forall|p: int|
            k <= p < s.drop_last().len() ==> (#[trigger] s.drop_last()[p]).port > x.port);
        if k > 0 {
            assert(s.drop_last()[k - 1] == s[k - 1]);
        }
        lemma_insert_by_port_at(s.drop_last(), x, k);
        assert(s.drop_last().insert(k, x).push(s.last()) =~= s.insert(k, x));
    }
}

/// Stable insertion sort on the port field: the result is exactly
/// `spec_sort_by_port` of the input, which pins the order of equal-port
/// records to their input order.
fn sort_records(input: Vec<PortInfo>) -> (r: Vec<PortInfo>)
    ensures
        r.deep_view() == spec_sort_by_port(input.deep_view()),
        sorted_by_port(r.deep_view()),
        r.deep_view().to_multiset() == input.deep_view().to_multiset(),
{
    let ghost dv = input.deep_view();
    let mut out: Vec<PortInfo> = Vec::new();
    let mut i: usize = 0;
    proof {
        broadcast use vstd::multiset::group_multiset_axioms;

        assert(dv.take(0) =~= Seq::<PortRec>::empty());
        assert(out.deep_view() =~= Seq::<PortRec>::empty());
        assert forall|e: PortRec| out.deep_view().to_multiset().count(e) == 0 by {
            vstd::seq_lib::to_multiset_contains(out.deep_view(), e);
        }
        assert forall|e: PortRec| dv.take(0).to_multiset().count(e) == 0 by {
            vstd::seq_lib::to_multiset_contains(dv.take(0), e);
        }
        assert(out.deep_view().to_multiset() =~= dv.take(0).to_multiset());
    }
    while i < input.len()
        invariant
            0 <= i <= input@.len(),
            dv == input.deep_view(),
            out.deep_view() == spec_sort_by_port(dv.take(i as int)),
            sorted_by_port(out.deep_view()),
            out.deep_view().to_multiset() == dv.take(i as int).to_multiset(),
        decreases input@.len() - i,
    {
        proof {
            assert(dv[i as int] == input@[i as int]@);
        }
        let x = input[i].duplicate();
        let mut k: usize = out.len();
        while k > 0 && out[k - 1].port > x.port
            invariant
                0 <= k <= out@.len(),
                forall|p: int|
                    k <= p < out.deep_view().len() ==> (#[trigger] out.deep_view()[p]).port
                        > x@.port,
            decreases k,
        {
            proof {
                assert(out.deep_view()[k - 1] == out@[k - 1]@);
            }
            k = k - 1;
        }
        let ghost old_out = out.deep_view();
        proof {
            if k > 0 {
                assert(out.deep_view()[k - 1] == out@[k - 1]@);
            }
            lemma_insert_by_port_at(old_out, x@, k as int);
            assert(dv.take(i + 1).drop_last() =~= dv.take(i as int));
            assert(dv.take(i + 1).last() == dv[i as int]);
        }
        out.insert(k, x);
        proof {
            broadcast use vstd::multiset::group_multiset_axioms;

            assert(out.deep_view() =~= old_out.insert(k as int, x@));
            assert(out.deep_view() == spec_sort_by_port(dv.take(i + 1)));
            assert forall|a: int, b: int|
                0 <= a < b < out.deep_view().len() implies (
            #[trigger] out.deep_view()[a]).port <= (#[trigger] out.deep_view()[b]).port by {
                let nd = out.deep_view();
                if a < k && b == k {
                    assert(nd[a] == old_out[a]);
                    assert(old_out[a].port <= old_out[k - 1].port);
                } else if a < k && b > k {
                    assert(nd[a] == old_out[a] && nd[b] == old_out[b - 1]);
                } else if a == k {
                    assert(nd[b] == old_out[b - 1]);
                } else if a > k {
                    assert(nd[a] == old_out[a - 1] && nd[b] == old_out[b - 1]);
                } else {
                    assert(nd[a] == old_out[a] && nd[b] == old_out[b]);
                }
            }
            vstd::seq_lib::to_multiset_insert(old_out, k as int, x@);
            assert(dv.take(i + 1) =~= dv.take(i as int).push(dv[i as int]));
            vstd::seq_lib::to_multiset_build(dv.take(i as int), dv[i as int]);
            assert(out.deep_view().to_multiset() =~= dv.take(i + 1).to_multiset());
        }
        i = i + 1;
    }
    proof {
        assert(dv.take(i as int) =~= dv);
    }
    out
}

/// Parse every line after the header, in order.
fn parse_lines(lines: &Vec<Vec<u8>>) -> (r: Vec<PortInfo>)
    ensures
        r.deep_view() == spec_parsed(spec_tail(lines.deep_view())),
{
    let mut out: Vec<PortInfo> = Vec::new();
    let mut i: usize = 1;
    let ghost ldv = lines.deep_view();
    proof {
        if ldv.len() == 0 {
            assert(spec_tail(ldv) =~= ldv);
        } else {
            assert(ldv.drop_first() =~= ldv.skip(1));
        }
        assert(out.deep_view() =~= Seq::<PortRec>::empty());
    }
    while i < lines.len()
        invariant
            1 <= i,
            0 <= i <= ldv.len() || (ldv.len() == 0 && i == 1),
            ldv == lines.deep_view(),
            i <= ldv.len() ==> spec_parsed(spec_tail(ldv)) == out.deep_view() + spec_parsed(
                ldv.skip(i as int),
            ),
            ldv.len() == 0 ==> out.deep_view() == Seq::<PortRec>::empty(),
        decreases ldv.len() - i,
    {
        proof {
            assert(ldv[i as int] =~= lines@[i as int]@);
            assert(ldv.skip(i as int).first() == ldv[i as int]);
            assert(ldv.skip(i as int).drop_first() =~= ldv.skip(i + 1));
        }
        let ghost done = out.deep_view();
        match parse_lsof_line(lines[i].as_slice()) {
            Some(rec) => {
                out.push(rec);
                proof {
                    assert(out.deep_view() =~= done.push(
                        spec_parse_lsof_line(ldv[i as int]).unwrap(),
                    ));
                    assert(done.push(spec_parse_lsof_line(ldv[i as int]).unwrap()) + spec_parsed(
                        ldv.skip(i + 1),
                    ) =~= done + (seq![spec_parse_lsof_line(ldv[i as int]).unwrap()] + spec_parsed(
                        ldv.skip(i + 1),
                    )));
                }
            },
            None => {},
        }
        i = i + 1;
    }
    proof {
        if ldv.len() > 0 {
            assert(i == ldv.len());
            assert(spec_parsed(ldv.skip(i as int)) =~= Seq::<PortRec>::empty());
            assert(out.deep_view() + Seq::<PortRec>::empty() =~= out.deep_view());
        } else {
            assert(spec_parsed(spec_tail(ldv)) =~= Seq::<PortRec>::empty());
        }
    }
    out
}


/// A permutation of a key-distinct record sequence is key-distinct.
proof fn lemma_perm_preserves_key_distinct(a: Seq<PortRec>, b: Seq<PortRec>)
    requires
        a.to_multiset() == b.to_multiset(),
        key_distinct(a),
    ensures
        key_distinct(b),
{
    broadcast use vstd::multiset::group_multiset_axioms;

    assert forall|i: int, j: int| 0 <= i < j < b.len() implies !key_eq(
        #[trigger] b[i],
        #[trigger] b[j],
    ) by {
        if key_eq(b[i], b[j]) {
            let x = b[i];
            let y = b[j];
            assert(b.contains(x));
            assert(b.contains(y));
            vstd::seq_lib::to_multiset_contains(b, x);
            vstd::seq_lib::to_multiset_contains(b, y);
            vstd::seq_lib::to_multiset_contains(a, x);
            vstd::seq_lib::to_multiset_contains(a, y);
            assert(a.contains(x));
            assert(a.contains(y));
            let ia = choose|k: int| 0 <= k < a.len() && a[k] == x;
            if x == y {
                let jb = if j < i {
                    j
                } else {
                    j - 1
                };
                assert(b.remove(i)[jb] == b[j]);
                assert(b.remove(i).contains(x));
                vstd::seq_lib::to_multiset_remove(b, i);
                vstd::seq_lib::to_multiset_contains(b.remove(i), x);
                assert(b.to_multiset().remove(x).count(x) > 0);
                assert(a.to_multiset().count(x) > 1);
                vstd::seq_lib::to_multiset_remove(a, ia);
                assert(a.remove(ia).to_multiset().count(x) > 0);
                vstd::seq_lib::to_multiset_contains(a.remove(ia), x);
                assert(a.remove(ia).contains(x));
                let ka = choose|k: int| 0 <= k < a.remove(ia).len() && a.remove(ia)[k] == x;
                let orig = if ka < ia {
                    ka
                } else {
                    ka + 1
                };
                assert(a.remove(ia)[ka] == a[orig]);
                assert(orig != ia && a[orig] == x && a[ia] == x);
                if orig < ia {
                    assert(!key_eq(a[orig], a[ia]));
                } else {
                    assert(!key_eq(a[ia], a[orig]));
                }
            } else {
                let ja = choose|k: int| 0 <= k < a.len() && a[k] == y;
                assert(a[ia] == x && a[ja] == y);
                assert(ia != ja);
                if ia < ja {
                    assert(!key_eq(a[ia], a[ja]));
                } else {
                    assert(!key_eq(a[ja], a[ia]));
                }
            }
        }
    }
}

/// The normalized snapshot extracted from one full run of the listing tool:
/// every parseable line after the header, deduplicated on `(port, pid,
/// state)` with the first occurrence winning, and stably sorted by port,
/// so records with equal ports keep their insertion order.
pub fn listing_records(out_bytes: &[u8]) -> (r: Vec<PortInfo>)
    ensures
        r.deep_view() == spec_sort_by_port(
            spec_dedup(spec_parsed(spec_tail(spec_lines(out_bytes@)))),
        ),
        r.deep_view().to_multiset() == spec_dedup(
            spec_parsed(spec_tail(spec_lines(out_bytes@))),
        ).to_multiset(),
        sorted_by_port(r.deep_view()),
        key_distinct(r.deep_view()),
{
    let lines = lines_of(out_bytes);
    let parsed = parse_lines(&lines);
    let deduped = dedup_records(&parsed);
    let ghost ddv = deduped.deep_view();
    let sorted = sort_records(deduped);
    proof {
        lemma_dedup_distinct(parsed.deep_view());
        lemma_perm_preserves_key_distinct(ddv, sorted.deep_view());
    }
    sorted
}

/// The first parseable record after the header line, if any — the scan
/// behind a single-port check.
pub open spec fn spec_first_rec(lines: Seq<Seq<u8>>) -> Option<PortRec>
    decreases lines.len(),
{
    if lines.len() == 0 {
        None
    } else {
        match spec_parse_lsof_line(lines.first()) {
            Some(r) => Some(r),
            None => spec_first_rec(lines.drop_first()),
        }
    }
}

/// Scan the captured output for the first parseable record after the header.
pub fn first_listing_record(out_bytes: &[u8]) -> (r: Option<PortInfo>)
    ensures
        match r {
            Some(p) => spec_first_rec(spec_tail(spec_lines(out_bytes@))) == Some(p@),
            None => spec_first_rec(spec_tail(spec_lines(out_bytes@))) is None,
        },
{
    let lines = lines_of(out_bytes);
    let ghost ldv = lines.deep_view();
    let mut i: usize = 1;
    proof {
        if ldv.len() == 0 {
            assert(spec_tail(ldv) =~= ldv);
        } else {
            assert(ldv.drop_first() =~= ldv.skip(1));
        }
    }
    while i < lines.len()
        invariant
            1 <= i,
            ldv == lines.deep_view(),
            ldv == spec_lines(out_bytes@),
            ldv.len() > 0 ==> i <= ldv.len(),
            i <= ldv.len() ==> spec_first_rec(spec_tail(ldv)) == spec_first_rec(
                ldv.skip(i as int),
            ),
            ldv.len() == 0 ==> spec_first_rec(spec_tail(ldv)) is None,
        decreases ldv.len() - i,
    {
        proof {
            assert(ldv[i as int] =~= lines@[i as int]@);
            assert(ldv.skip(i as int).first() == ldv[i as int]);
            assert(ldv.skip(i as int).drop_first() =~= ldv.skip(i + 1));
        }
        match parse_lsof_line(lines[i].as_slice()) {
            Some(rec) => {
                proof {
                    assert(spec_first_rec(ldv.skip(i as int)) == Some(rec@));
                }
                return Some(rec);
            },
            None => {},
        }
        i = i + 1;
    }
    proof {
        if ldv.len() > 0 {
            assert(i == ldv.len());
            assert(ldv.skip(i as int) =~= Seq::<Seq<u8>>::empty());
            assert(spec_first_rec(ldv.skip(i as int)) is None);
        }
    }
    None
}

} // verus!
