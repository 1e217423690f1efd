//! Tunnel lifecycle manager: persisted tunnel definitions whose connection
//! state is derived from a fresh socket listing, never cached. The SSH
//! client, the termination signal and the listing tool are invoked by the
//! surrounding program; every function here decides from plain values what
//! that program should do next.

use vstd::prelude::*;
use crate::text::{
    spec_tokens, spec_lines, spec_parse_u32, spec_dec_u, eq_bytes, parse_u32_bytes, tokenize,
    lines_of, u16_to_dec, slice_part_to_vec,
};
use crate::port::spec_tail;

verus! {

/// A persisted, user-named tunnel intent. The `process` field is the pid
/// observed for the tunnel's SSH client, re-derived from the host on load
/// and on every status query, never persisted.
#[derive(Debug)]
pub struct TunnelConfig {
    pub name: Vec<u8>,
    pub ssh_host: Vec<u8>,
    pub local_port: u16,
    pub remote_target: Vec<u8>,
    pub process: Option<u32>,
}

/// Mathematical image of a `TunnelConfig`.
#[verifier::ext_equal]
pub ghost struct TunnelRec {
    pub name: Seq<u8>,
    pub ssh_host: Seq<u8>,
    pub local_port: u16,
    pub remote_target: Seq<u8>,
    pub process: Option<u32>,
}

impl View for TunnelConfig {
    type V = TunnelRec;

    open spec fn view(&self) -> TunnelRec {
        TunnelRec {
            name: self.name@,
            ssh_host: self.ssh_host@,
            local_port: self.local_port,
            remote_target: self.remote_target@,
            process: self.process,
        }
    }
}

impl DeepView for TunnelConfig {
    type V = TunnelRec;

    open spec fn deep_view(&self) -> TunnelRec {
        self.view()
    }
}

impl Default for TunnelConfig {
    /// The blank definition that the interactive add dialog fills in.
    fn default() -> (r: Self)
        ensures
            r@.name == Seq::<u8>::empty(),
            r@.ssh_host == Seq::<u8>::empty(),
            r@.local_port == 0u16,
            r@.remote_target == Seq::<u8>::empty(),
            r@.process is None,
    {
        let r = TunnelConfig {
            name: Vec::new(),
            ssh_host: Vec::new(),
            local_port: 0,
            remote_target: Vec::new(),
            process: None,
        };
        r
    }
}

/// The bytes of `"ssh"`, the command name that marks a row of the listing
/// as belonging to the SSH client.
pub open spec fn ssh_mark() -> Seq<u8> {
    seq![115u8, 115u8, 104u8]
}

/// Pid of the first row after the header whose command name is the SSH
/// client and whose pid field is numeric.
pub open spec fn spec_find_ssh_pid(lines: Seq<Seq<u8>>) -> Option<u32>
    decreases lines.len(),
{
    if lines.len() == 0 {
        None
    } else {
        let toks = spec_tokens(lines.first());
        if toks.len() >= 2 && toks[0] == ssh_mark() && spec_parse_u32(toks[1]) is Some {
            spec_parse_u32(toks[1])
        } else {
            spec_find_ssh_pid(lines.drop_first())
        }
    }
}

fn ssh_bytes() -> (r: Vec<u8>)
    ensures
        r@ == ssh_mark(),
{
    let mut v: Vec<u8> = Vec::new();
    v.push(115);
    v.push(115);
    v.push(104);
    proof {
        assert(v@ =~= ssh_mark());
    }
    v
}

/// Scan a captured single-port listing for the pid of an SSH-owned row.
pub fn find_ssh_pid_in(listing: &[u8]) -> (r: Option<u32>)
    ensures
        r == spec_find_ssh_pid(spec_tail(spec_lines(listing@))),
{
    let lines = lines_of(listing);
    let ghost ldv = lines.deep_view();
    let ssh = ssh_bytes();
    let mut i: usize = 1;
    proof {
        if ldv.len() == 0 {
            assert(spec_tail(ldv) =~= ldv);
        } else {
            assert(ldv.drop_first() =~= ldv.skip(1));
        }
    }
    while i < lines.len()
        invariant
            1 <= i,
            ldv == lines.deep_view(),
            ldv == spec_lines(listing@),
            ssh@ == ssh_mark(),
            ldv.len() > 0 ==> i <= ldv.len(),
            i <= ldv.len() ==> spec_find_ssh_pid(spec_tail(ldv)) == spec_find_ssh_pid(
                ldv.skip(i as int),
            ),
            ldv.len() == 0 ==> spec_find_ssh_pid(spec_tail(ldv)) is None,
        decreases ldv.len() - i,
    {
        proof {
            assert(ldv[i as int] =~= lines@[i as int]@);
            assert(ldv.skip(i as int).first() == ldv[i as int]);
            assert(ldv.skip(i as int).drop_first() =~= ldv.skip(i + 1));
        }
        let toks = tokenize(lines[i].as_slice());
        proof {
            assert(toks.deep_view().len() == toks@.len());
            if toks@.len() >= 2 {
                assert(toks.deep_view()[0] =~= toks@[0]@);
                assert(toks.deep_view()[1] =~= toks@[1]@);
            }
        }
        if toks.len() >= 2 && eq_bytes(toks[0].as_slice(), ssh.as_slice()) {
            match parse_u32_bytes(toks[1].as_slice()) {
                Some(pid) => {
                    proof {
                        assert(spec_find_ssh_pid(ldv.skip(i as int)) == Some(pid));
                    }
                    return Some(pid);
                },
                None => {},
            }
        }
        i = i + 1;
    }
    proof {
        if ldv.len() > 0 {
            assert(i == ldv.len());
            assert(ldv.skip(i as int) =~= Seq::<Seq<u8>>::empty());
        }
    }
    None
}

impl TunnelConfig {
    /// The forwarding specification handed to the SSH client:
    /// `local_port:remote_target`.
    pub fn forward_spec(&self) -> (r: Vec<u8>)
        ensures
            r@ == spec_dec_u(self.local_port as int) + seq![58u8] + self.remote_target@,
    {
        let mut out: Vec<u8> = u16_to_dec(self.local_port);
        let ghost digits = out@;
        out.push(58);
        let mut i: usize = 0;
        proof {
            assert(out@ =~= digits + seq![58u8]);
            assert(out@ + self.remote_target@.take(0) =~= out@);
        }
        let ghost mid = out@;
        while i < self.remote_target.len()
            invariant
                0 <= i <= self.remote_target@.len(),
                out@ == mid + self.remote_target@.take(i as int),
            decreases self.remote_target@.len() - i,
        {
            out.push(self.remote_target[i]);
            proof {
                assert(mid + self.remote_target@.take(i + 1) =~= (mid
                    + self.remote_target@.take(i as int)).push(self.remote_target@[i as int]));
            }
            i = i + 1;
        }
        proof {
            assert(self.remote_target@.take(i as int) =~= self.remote_target@);
            assert(mid + self.remote_target@ =~= spec_dec_u(self.local_port as int) + seq![58u8]
                + self.remote_target@);
        }
        out
    }

    /// Whether the host currently shows an SSH-owned socket on the
    /// tunnel's local port, judging from a captured single-port listing.
    /// Status is always derived from the listing, never from the cached
    /// pid.
    pub fn is_connected(&self, listing: &[u8]) -> (r: bool)
        ensures
            r == (spec_find_ssh_pid(spec_tail(spec_lines(listing@))) is Some),
    {
        match find_ssh_pid_in(listing) {
            Some(_) => true,
            None => false,
        }
    }

    /// Record the outcome of a connection attempt after the settle delay:
    /// a pid observed on the local port means the forward is up and is
    /// remembered; nothing observed means the attempt failed and the
    /// definition is left untouched.
    pub fn apply_connect_check(&mut self, observed: Option<u32>) -> (r: bool)
        ensures
            observed is Some ==> r && final(self).process == observed,
            observed is None ==> !r && final(self).process == old(self).process,
            final(self).name == old(self).name,
            final(self).ssh_host == old(self).ssh_host,
            final(self).local_port == old(self).local_port,
            final(self).remote_target == old(self).remote_target,
    {
        match observed {
            Some(pid) => {
                self.process = Some(pid);
                true
            },
            None => false,
        }
    }

    /// Decide which pid a disconnect should signal — the recorded one if
    /// any, otherwise the one just observed on the port — and clear the
    /// recorded pid. Disconnecting an already-disconnected tunnel signals
    /// nothing and changes nothing.
    pub fn disconnect(&mut self, observed: Option<u32>) -> (r: Option<u32>)
        ensures
            final(self).process is None,
            final(self).name == old(self).name,
            final(self).ssh_host == old(self).ssh_host,
            final(self).local_port == old(self).local_port,
            final(self).remote_target == old(self).remote_target,
            r == (if old(self).process is Some {
                old(self)@.process
            } else {
                observed
            }),
            old(self).process is None && observed is None ==> r is None && final(self)@ == old(
                self,
            )@,
    {
        let r = match self.process {
            Some(pid) => Some(pid),
            None => observed,
        };
        self.process = None;
        r
    }

    /// Human-readable connection status, with the filled circle marking a
    /// live tunnel and the open circle a dead one.
    pub fn status_string(&self, connected: bool) -> (r: &'static str)
        ensures
            connected ==> r@ == "\u{25cf} Connected"@,
            !connected ==> r@ == "\u{25cb} Disconnected"@,
    {
        if connected {
            "\u{25cf} Connected"
        } else {
            "\u{25cb} Disconnected"
        }
    }

    /// Field-by-field copy.
    pub fn duplicate(&self) -> (r: TunnelConfig)
        ensures
            r@ == self@,
    {
        let r = TunnelConfig {
            name: slice_part_to_vec(self.name.as_slice(), 0, self.name.len()),
            ssh_host: slice_part_to_vec(self.ssh_host.as_slice(), 0, self.ssh_host.len()),
            local_port: self.local_port,
            remote_target: slice_part_to_vec(
                self.remote_target.as_slice(),
                0,
                self.remote_target.len(),
            ),
            process: self.process,
        };
        proof {
            assert(r.name@ =~= self.name@);
            assert(r.ssh_host@ =~= self.ssh_host@);
            assert(r.remote_target@ =~= self.remote_target@);
            assert(r@ =~= self@);
        }
        r
    }
}

/// Index of the first definition named `name`, if any.
pub open spec fn spec_find_name(s: Seq<TunnelRec>, name: Seq<u8>) -> Option<int>
    decreases s.len(),
{
    if s.len() == 0 {
        None
    } else if s.first().name == name {
        Some(0)
    } else {
        match spec_find_name(s.drop_first(), name) {
            Some(i) => Some(i + 1),
            None => None,
        }
    }
}

/// The ordered, persisted collection of tunnel definitions.
pub struct TunnelManager {
    pub tunnels: Vec<TunnelConfig>,
}

impl TunnelManager {
    /// An empty registry, the state before any definition is loaded.
    pub fn new() -> (r: TunnelManager)
        ensures
            r.tunnels.deep_view() == Seq::<TunnelRec>::empty(),
    {
        let r = TunnelManager { tunnels: Vec::new() };
        proof {
            assert(r.tunnels.deep_view() =~= Seq::<TunnelRec>::empty());
        }
        r
    }

    /// Replace-by-name add: any definition with the same name is removed,
    /// then the new definition is appended.
    pub fn add(&mut self, tunnel: TunnelConfig)
        ensures
            final(self).tunnels.deep_view() == old(self).tunnels.deep_view().filter(
                |t: TunnelRec| t.name != tunnel@.name,
            ).push(tunnel@),
    {
        let ghost dv = self.tunnels.deep_view();
        let ghost keep = (|t: TunnelRec| t.name != tunnel@.name);
        let mut out: Vec<TunnelConfig> = Vec::new();
        let mut i: usize = 0;
        proof {
            reveal(Seq::filter);
            assert(dv.take(0) =~= Seq::<TunnelRec>::empty());
            assert(out.deep_view() =~= dv.take(0).filter(keep));
        }
        while i < self.tunnels.len()
            invariant
                0 <= i <= self.tunnels@.len(),
                dv == self.tunnels.deep_view(),
                keep == (|t: TunnelRec| t.name != tunnel@.name),
                out.deep_view() == dv.take(i as int).filter(keep),
            decreases self.tunnels@.len() - i,
        {
            proof {
                reveal(Seq::filter);
                assert(dv[i as int] == self.tunnels@[i as int]@);
                assert(dv.take(i + 1).drop_last() =~= dv.take(i as int));
                assert(dv.take(i + 1).last() == dv[i as int]);
            }
            let e = &self.tunnels[i];
            let ghost done = out.deep_view();
            if !eq_bytes(e.name.as_slice(), tunnel.name.as_slice()) {
                let copy = e.duplicate();
                out.push(copy);
                proof {
                    assert(out.deep_view() =~= done.push(copy@));
                }
            }
            i = i + 1;
        }
        proof {
            assert(dv.take(i as int) =~= dv);
        }
        let ghost done = out.deep_view();
        out.push(tunnel);
        proof {
            assert(out.deep_view() =~= done.push(tunnel@));
        }
        self.tunnels = out;
    }

    /// Remove a definition by name, deciding first which pid a best-effort
    /// disconnect should signal: the matching definition's recorded pid,
    /// or the one just observed on its local port. The definition is
    /// removed whether or not that signal succeeds.
    pub fn remove(&mut self, name: &[u8], observed: Option<u32>) -> (r: Option<u32>)
        ensures
            final(self).tunnels.deep_view() == old(self).tunnels.deep_view().filter(
                |t: TunnelRec| t.name != name@,
            ),
            r == (match spec_find_name(old(self).tunnels.deep_view(), name@) {
                Some(i) => if old(self).tunnels.deep_view()[i].process is Some {
                    old(self).tunnels.deep_view()[i].process
                } else {
                    observed
                },
                None => None,
            }),
    {
        let ghost dv = self.tunnels.deep_view();
        let ghost keep = (|t: TunnelRec| t.name != name@);
        let signal: Option<u32> = match find_by_name(&self.tunnels, name) {
            Some(k) => {
                let e = &self.tunnels[k];
                match e.process {
                    Some(pid) => Some(pid),
                    None => observed,
                }
            },
            None => None,
        };
        let mut out: Vec<TunnelConfig> = Vec::new();
        let mut i: usize = 0;
        proof {
            reveal(Seq::filter);
            assert(dv.take(0) =~= Seq::<TunnelRec>::empty());
            assert(out.deep_view() =~= dv.take(0).filter(keep));
        }
        while i < self.tunnels.len()
            invariant
                0 <= i <= self.tunnels@.len(),
                dv == self.tunnels.deep_view(),
                keep == (|t: TunnelRec| t.name != name@),
                out.deep_view() == dv.take(i as int).filter(keep),
            decreases self.tunnels@.len() - i,
        {
            proof {
                reveal(Seq::filter);
                assert(dv[i as int] == self.tunnels@[i as int]@);
                assert(dv.take(i + 1).drop_last() =~= dv.take(i as int));
                assert(dv.take(i + 1).last() == dv[i as int]);
            }
            let e = &self.tunnels[i];
            let ghost done = out.deep_view();
            if !eq_bytes(e.name.as_slice(), name) {
                let copy = e.duplicate();
                out.push(copy);
                proof {
                    assert(out.deep_view() =~= done.push(copy@));
                }
            }
            i = i + 1;
        }
        proof {
            assert(dv.take(i as int) =~= dv);
        }
        self.tunnels = out;
        signal
    }
}

/// `spec_find_name` returns exactly the least index whose name matches.
pub proof fn lemma_find_name_some(s: Seq<TunnelRec>, name: Seq<u8>, k: int)
    requires
        0 <= k < s.len(),
        s[k].name == name,
        forall|j: int| 0 <= j < k ==> (#[trigger] s[j]).name != name,
    ensures
        spec_find_name(s, name) == Some(k),
    decreases k,
{
    if k == 0 {
    } else {
        assert(s.first().name != name);
        assert(s.drop_first()[k - 1] == s[k]);
        assert(forall|j: int| 0 <= j < k - 1 ==> (#[trigger] s.drop_first()[j]) == s[j + 1]);
        lemma_find_name_some(s.drop_first(), name, k - 1);
    }
}

/// When no name matches, `spec_find_name` reports so.
pub proof fn lemma_find_name_none(s: Seq<TunnelRec>, name: Seq<u8>)
    requires
        forall|j: int| 0 <= j < s.len() ==> (#[trigger] s[j]).name != name,
    ensures
        spec_find_name(s, name) is None,
    decreases s.len(),
{
    if s.len() > 0 {
        lemma_find_name_none(s.drop_first(), name);
    }
}

/// Index of the first definition whose name is `name`.
pub fn find_by_name(v: &Vec<TunnelConfig>, name: &[u8]) -> (r: Option<usize>)
    ensures
        match r {
            Some(k) => spec_find_name(v.deep_view(), name@) == Some(k as int) && 0 <= k
                < v.deep_view().len() && v.deep_view()[k as int].name == name@,
            None => spec_find_name(v.deep_view(), name@) is None,
        },
{
    let mut i: usize = 0;
    while i < v.len()
        invariant
            0 <= i <= v@.len(),
            forall|j: int| 0 <= j < i ==> (#[trigger] v.deep_view()[j]).name != name@,
        decreases v@.len() - i,
    {
        proof {
            assert(v.deep_view()[i as int] == v@[i as int]@);
        }
        if eq_bytes(v[i].name.as_slice(), name) {
            proof {
                lemma_find_name_some(v.deep_view(), name@, i as int);
            }
            return Some(i);
        }
        i = i + 1;
    }
    proof {
        lemma_find_name_none(v.deep_view(), name@);
    }
    None
}


/// Replace-on-add: after adding two definitions that share a name, the
/// registry holds exactly one entry under that name — the one added last —
/// and it stands at the end.
pub proof fn lemma_add_replaces(s: Seq<TunnelRec>, a: TunnelRec, b: TunnelRec)
    requires
        a.name == b.name,
    ensures
        ({
            let after_first = s.filter(|t: TunnelRec| t.name != a.name).push(a);
            let after_second = after_first.filter(|t: TunnelRec| t.name != b.name).push(b);
            after_second.last() == b && forall|i: int|
                0 <= i < after_second.len() - 1 ==> (#[trigger] after_second[i]).name != b.name
        }),
{
    let after_first = s.filter(|t: TunnelRec| t.name != a.name).push(a);
    let kept = after_first.filter(|t: TunnelRec| t.name != b.name);
    let after_second = kept.push(b);
    assert forall|i: int| 0 <= i < after_second.len() - 1 implies (
    #[trigger] after_second[i]).name != b.name by {
        assert(after_second[i] == kept[i]);
        after_first.lemma_filter_pred(|t: TunnelRec| t.name != b.name, i);
    }
}

} // verus!
