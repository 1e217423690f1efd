//! Controller state: tab and selection handling, the port filter, the
//! four-step add-tunnel dialog and the pending-confirmation machine. Every
//! operation that needs the host — a fresh socket listing, a spawned SSH
//! client, a termination signal, the registry file — is split so that the
//! surrounding program performs it and hands the observed values back in.

use vstd::prelude::*;
use crate::port::{
    PortInfo, PortRec, listing_records, sorted_by_port, key_distinct, spec_dedup, spec_parsed,
    spec_sort_by_port, spec_tail,
};
use crate::text::{
    spec_lines, spec_contains_sub, spec_dec_u, spec_dec_i, spec_lower, spec_trim, spec_parse_u16,
    contains_sub, lower_bytes, u16_to_dec, i32_to_dec, trim_bytes, parse_u16_bytes,
    slice_part_to_vec,
};
use crate::tunnel::{TunnelConfig, TunnelRec, TunnelManager, spec_find_name};

verus! {

/// The two panes of the interface.
#[derive(Clone, Copy, Debug, PartialEq, Eq, Structural)]
pub enum AppTab {
    Ports,
    Tunnels,
}

/// Which step of the add-tunnel dialog is awaiting input.
#[derive(Clone, Copy, Debug, PartialEq, Eq, Structural)]
pub enum InputMode {
    Idle,
    TunnelName,
    TunnelHost,
    TunnelLocalPort,
    TunnelRemotePort,
}

/// An action awaiting the user's confirmation.
#[derive(Debug)]
pub enum PendingAction {
    KillProcess(i32),
    DeleteTunnel(Vec<u8>),
}

/// Mathematical image of a `PendingAction`.
pub ghost enum PendingRec {
    KillProcess(i32),
    DeleteTunnel(Seq<u8>),
}

impl View for PendingAction {
    type V = PendingRec;

    open spec fn view(&self) -> PendingRec {
        match self {
            PendingAction::KillProcess(pid) => PendingRec::KillProcess(*pid),
            PendingAction::DeleteTunnel(name) => PendingRec::DeleteTunnel(name@),
        }
    }
}

/// The one-line status shown to the user, as a tagged value; the
/// surrounding program renders it as text.
#[derive(Debug)]
pub enum StatusNote {
    Help,
    FoundPorts(usize),
    InputEmpty,
    InvalidPort,
    TunnelAdded(Vec<u8>),
    TunnelDeleted(Vec<u8>),
    AlreadyConnected(Vec<u8>),
    Connected(Vec<u8>),
    ConnectFailed(Vec<u8>),
    NotConnected(Vec<u8>),
    Disconnected(Vec<u8>),
    ProcessKilled(i32),
    KillFailed(Vec<u8>),
}

/// Mathematical image of a `StatusNote`.
pub ghost enum StatusRec {
    Help,
    FoundPorts(int),
    InputEmpty,
    InvalidPort,
    TunnelAdded(Seq<u8>),
    TunnelDeleted(Seq<u8>),
    AlreadyConnected(Seq<u8>),
    Connected(Seq<u8>),
    ConnectFailed(Seq<u8>),
    NotConnected(Seq<u8>),
    Disconnected(Seq<u8>),
    ProcessKilled(i32),
    KillFailed(Seq<u8>),
}

impl View for StatusNote {
    type V = StatusRec;

    open spec fn view(&self) -> StatusRec {
        match self {
            StatusNote::Help => StatusRec::Help,
            StatusNote::FoundPorts(n) => StatusRec::FoundPorts(*n as int),
            StatusNote::InputEmpty => StatusRec::InputEmpty,
            StatusNote::InvalidPort => StatusRec::InvalidPort,
            StatusNote::TunnelAdded(n) => StatusRec::TunnelAdded(n@),
            StatusNote::TunnelDeleted(n) => StatusRec::TunnelDeleted(n@),
            StatusNote::AlreadyConnected(n) => StatusRec::AlreadyConnected(n@),
            StatusNote::Connected(n) => StatusRec::Connected(n@),
            StatusNote::ConnectFailed(e) => StatusRec::ConnectFailed(e@),
            StatusNote::NotConnected(n) => StatusRec::NotConnected(n@),
            StatusNote::Disconnected(n) => StatusRec::Disconnected(n@),
            StatusNote::ProcessKilled(pid) => StatusRec::ProcessKilled(*pid),
            StatusNote::KillFailed(diag) => StatusRec::KillFailed(diag@),
        }
    }
}

/// The whole controller state.
pub struct App {
    pub current_tab: AppTab,
    pub ports: Vec<PortInfo>,
    pub filtered_ports: Vec<PortInfo>,
    pub port_selected: usize,
    pub tunnel_manager: TunnelManager,
    pub tunnel_selected: usize,
    pub show_filter: bool,
    pub filter_text: Vec<u8>,
    pub show_input: bool,
    pub input_mode: InputMode,
    pub input_buffer: Vec<u8>,
    pub show_confirm: bool,
    pub pending_action: Option<PendingAction>,
    pub new_tunnel: Option<TunnelConfig>,
    pub status: StatusNote,
}

/// Mathematical image of the controller state.
#[verifier::ext_equal]
pub ghost struct AppRec {
    pub current_tab: AppTab,
    pub ports: Seq<PortRec>,
    pub filtered_ports: Seq<PortRec>,
    pub port_selected: usize,
    pub tunnels: Seq<TunnelRec>,
    pub tunnel_selected: usize,
    pub show_filter: bool,
    pub filter_text: Seq<u8>,
    pub show_input: bool,
    pub input_mode: InputMode,
    pub input_buffer: Seq<u8>,
    pub show_confirm: bool,
    pub pending_action: Option<PendingRec>,
    pub new_tunnel: Option<TunnelRec>,
    pub status: StatusRec,
}

impl View for App {
    type V = AppRec;

    open spec fn view(&self) -> AppRec {
        AppRec {
            current_tab: self.current_tab,
            ports: self.ports.deep_view(),
            filtered_ports: self.filtered_ports.deep_view(),
            port_selected: self.port_selected,
            tunnels: self.tunnel_manager.tunnels.deep_view(),
            tunnel_selected: self.tunnel_selected,
            show_filter: self.show_filter,
            filter_text: self.filter_text@,
            show_input: self.show_input,
            input_mode: self.input_mode,
            input_buffer: self.input_buffer@,
            show_confirm: self.show_confirm,
            pending_action: match self.pending_action {
                Some(ref p) => Some(p@),
                None => None,
            },
            new_tunnel: match self.new_tunnel {
                Some(ref t) => Some(t@),
                None => None,
            },
            status: self.status@,
        }
    }
}

/// Does one record match the filter string? The port and pid are compared
/// in decimal, the process name after ASCII lower-casing, as the filter
/// string itself has been.
pub open spec fn rec_matches_filter(p: PortRec, f: Seq<u8>) -> bool {
    spec_contains_sub(spec_dec_u(p.port as int), f) || spec_contains_sub(
        spec_lower(p.process_name),
        f,
    ) || spec_contains_sub(spec_dec_i(p.pid as int), f)
}

/// The filtered port list: everything when the filter is empty, otherwise
/// the records matching the lower-cased filter string.
pub open spec fn spec_apply_filter(ports: Seq<PortRec>, filter: Seq<u8>) -> Seq<PortRec> {
    if filter.len() == 0 {
        ports
    } else {
        ports.filter(|p: PortRec| rec_matches_filter(p, spec_lower(filter)))
    }
}

/// Selection clamping after the list under a cursor shrinks.
pub open spec fn spec_clamp(sel: usize, len: int) -> usize {
    if sel >= len && len > 0 {
        (len - 1) as usize
    } else {
        sel
    }
}

fn matches_filter(p: &PortInfo, f: &[u8]) -> (r: bool)
    ensures
        r == rec_matches_filter(p@, f@),
{
    let port_str = u16_to_dec(p.port);
    if contains_sub(port_str.as_slice(), f) {
        return true;
    }
    let lowered = lower_bytes(p.process_name.as_slice());
    if contains_sub(lowered.as_slice(), f) {
        return true;
    }
    let pid_str = i32_to_dec(p.pid);
    contains_sub(pid_str.as_slice(), f)
}

impl App {
    /// Fresh controller state around an already-loaded registry.
    pub fn new(tunnel_manager: TunnelManager) -> (r: App)
        ensures
            r@.current_tab == AppTab::Ports,
            r@.ports == Seq::<PortRec>::empty(),
            r@.filtered_ports == Seq::<PortRec>::empty(),
            r@.port_selected == 0usize,
            r@.tunnels == tunnel_manager.tunnels.deep_view(),
            r@.tunnel_selected == 0usize,
            !r@.show_filter && r@.filter_text == Seq::<u8>::empty(),
            !r@.show_input && r@.input_mode == InputMode::Idle,
            r@.input_buffer == Seq::<u8>::empty(),
            !r@.show_confirm && r@.pending_action is None,
            r@.new_tunnel is None,
            r@.status == StatusRec::Help,
    {
        let r = App {
            current_tab: AppTab::Ports,
            ports: Vec::new(),
            filtered_ports: Vec::new(),
            port_selected: 0,
            tunnel_manager,
            tunnel_selected: 0,
            show_filter: false,
            filter_text: Vec::new(),
            show_input: false,
            input_mode: InputMode::Idle,
            input_buffer: Vec::new(),
            show_confirm: false,
            pending_action: None,
            new_tunnel: None,
            status: StatusNote::Help,
        };
        proof {
            assert(r.ports.deep_view() =~= Seq::<PortRec>::empty());
            assert(r.filtered_ports.deep_view() =~= Seq::<PortRec>::empty());
        }
        r
    }

    /// Recompute the filtered port list and clamp the cursor.
    pub fn apply_filter(&mut self)
        ensures
            final(self)@ == (AppRec {
                filtered_ports: spec_apply_filter(old(self)@.ports, old(self)@.filter_text),
                port_selected: spec_clamp(
                    old(self)@.port_selected,
                    spec_apply_filter(old(self)@.ports, old(self)@.filter_text).len() as int,
                ),
                ..old(self)@
            }),
    {
        let ghost pdv = self.ports.deep_view();
        let mut out: Vec<PortInfo> = Vec::new();
        if self.filter_text.len() == 0 {
            let mut i: usize = 0;
            proof {
                assert(out.deep_view() =~= pdv.take(0));
            }
            while i < self.ports.len()
                invariant
                    0 <= i <= self.ports@.len(),
                    pdv == self.ports.deep_view(),
                    out.deep_view() == pdv.take(i as int),
                decreases self.ports@.len() - i,
            {
                proof {
                    assert(pdv[i as int] == self.ports@[i as int]@);
                }
                let ghost done = out.deep_view();
                let copy = self.ports[i].duplicate();
                out.push(copy);
                proof {
                    assert(out.deep_view() =~= done.push(pdv[i as int]));
                    assert(pdv.take(i + 1).drop_last() =~= pdv.take(i as int));
                    assert(pdv.take(i + 1) =~= pdv.take(i as int).push(pdv[i as int]));
                }
                i = i + 1;
            }
            proof {
                assert(pdv.take(i as int) =~= pdv);
            }
        } else {
            let lowered = lower_bytes(self.filter_text.as_slice());
            let ghost pred = (|p: PortRec| rec_matches_filter(p, spec_lower(self.filter_text@)));
            let mut i: usize = 0;
            proof {
                reveal(Seq::filter);
                assert(pdv.take(0) =~= Seq::<PortRec>::empty());
                assert(out.deep_view() =~= pdv.take(0).filter(pred));
            }
            while i < self.ports.len()
                invariant
                    0 <= i <= self.ports@.len(),
                    pdv == self.ports.deep_view(),
                    lowered@ == spec_lower(self.filter_text@),
                    pred == (|p: PortRec| rec_matches_filter(p, spec_lower(self.filter_text@))),
                    out.deep_view() == pdv.take(i as int).filter(pred),
                decreases self.ports@.len() - i,
            {
                proof {
                    reveal(Seq::filter);
                    assert(pdv[i as int] == self.ports@[i as int]@);
                    assert(pdv.take(i + 1).drop_last() =~= pdv.take(i as int));
                    assert(pdv.take(i + 1).last() == pdv[i as int]);
                }
                let ghost done = out.deep_view();
                let keep = matches_filter(&self.ports[i], lowered.as_slice());
                if keep {
                    let copy = self.ports[i].duplicate();
                    out.push(copy);
                    proof {
                        assert(out.deep_view() =~= done.push(pdv[i as int]));
                    }
                }
                i = i + 1;
            }
            proof {
                assert(pdv.take(i as int) =~= pdv);
            }
        }
        let len: usize = out.len();
        self.filtered_ports = out;
        if self.port_selected >= len && len > 0 {
            self.port_selected = len - 1;
        }
        proof {
            assert(final(self)@ =~= (AppRec {
                filtered_ports: spec_apply_filter(old(self)@.ports, old(self)@.filter_text),
                port_selected: spec_clamp(
                    old(self)@.port_selected,
                    spec_apply_filter(old(self)@.ports, old(self)@.filter_text).len() as int,
                ),
                ..old(self)@
            }));
        }
    }

    /// Take in a fresh listing snapshot: parse it, refilter, report the
    /// count.
    pub fn refresh_ports(&mut self, listing: &[u8])
        ensures
            final(self)@.ports == spec_sort_by_port(
                spec_dedup(spec_parsed(spec_tail(spec_lines(listing@)))),
            ),
            final(self)@.ports.to_multiset() == spec_dedup(
                spec_parsed(spec_tail(spec_lines(listing@))),
            ).to_multiset(),
            sorted_by_port(final(self)@.ports),
            key_distinct(final(self)@.ports),
            final(self)@ == (AppRec {
                ports: final(self)@.ports,
                filtered_ports: spec_apply_filter(final(self)@.ports, old(self)@.filter_text),
                port_selected: spec_clamp(
                    old(self)@.port_selected,
                    spec_apply_filter(final(self)@.ports, old(self)@.filter_text).len() as int,
                ),
                status: StatusRec::FoundPorts(final(self)@.ports.len() as int),
                ..old(self)@
            }),
    {
        let recs = listing_records(listing);
        let n: usize = recs.len();
        self.ports = recs;
        self.apply_filter();
        self.status = StatusNote::FoundPorts(n);
        proof {
            assert(final(self)@ =~= (AppRec {
                ports: final(self)@.ports,
                filtered_ports: spec_apply_filter(final(self)@.ports, old(self)@.filter_text),
                port_selected: spec_clamp(
                    old(self)@.port_selected,
                    spec_apply_filter(final(self)@.ports, old(self)@.filter_text).len() as int,
                ),
                status: StatusRec::FoundPorts(final(self)@.ports.len() as int),
                ..old(self)@
            }));
        }
    }

    /// Flip to the other pane.
    pub fn next_tab(&mut self)
        ensures
            final(self)@ == (AppRec {
                current_tab: (if old(self)@.current_tab is Ports {
                    AppTab::Tunnels
                } else {
                    AppTab::Ports
                }),
                ..old(self)@
            }),
    {
        self.current_tab = match self.current_tab {
            AppTab::Ports => AppTab::Tunnels,
            AppTab::Tunnels => AppTab::Ports,
        };
    }

    /// With two panes, the previous pane is the other pane.
    pub fn prev_tab(&mut self)
        ensures
            final(self)@ == (AppRec {
                current_tab: (if old(self)@.current_tab is Ports {
                    AppTab::Tunnels
                } else {
                    AppTab::Ports
                }),
                ..old(self)@
            }),
    {
        self.next_tab();
    }

    /// Move the active pane's cursor down one row, wrapping at the end.
    pub fn select_next(&mut self)
        ensures
            old(self)@.current_tab is Ports && old(self)@.filtered_ports.len() > 0 ==> final(self)@ == (AppRec {
                port_selected: (if old(self)@.port_selected < old(self)@.filtered_ports.len()
                    - 1 {
                    (old(self)@.port_selected + 1) as usize
                } else {
                    0usize
                }),
                ..old(self)@
            }),
            old(self)@.current_tab is Tunnels && old(self)@.tunnels.len() > 0 ==> final(self)@
                == (AppRec {
                tunnel_selected: (if old(self)@.tunnel_selected < old(self)@.tunnels.len() - 1 {
                    (old(self)@.tunnel_selected + 1) as usize
                } else {
                    0usize
                }),
                ..old(self)@
            }),
            old(self)@.current_tab is Ports && old(self)@.filtered_ports.len() == 0 ==> final(self)@ == old(self)@,
            old(self)@.current_tab is Tunnels && old(self)@.tunnels.len() == 0 ==> final(self)@
                == old(self)@,
    {
        match self.current_tab {
            AppTab::Ports => {
                let len: usize = self.filtered_ports.len();
                if len > 0 {
                    self.port_selected = if self.port_selected < len - 1 {
                        self.port_selected + 1
                    } else {
                        0
                    };
                }
            },
            AppTab::Tunnels => {
                let len: usize = self.tunnel_manager.tunnels.len();
                if len > 0 {
                    self.tunnel_selected = if self.tunnel_selected < len - 1 {
                        self.tunnel_selected + 1
                    } else {
                        0
                    };
                }
            },
        }
        proof {
            assert(final(self)@ =~= final(self)@);
        }
    }

    /// Move the active pane's cursor up one row, wrapping at the top.
    pub fn select_prev(&mut self)
        ensures
            old(self)@.current_tab is Ports && old(self)@.filtered_ports.len() > 0 ==> final(self)@ == (AppRec {
                port_selected: (if old(self)@.port_selected == 0 {
                    (old(self)@.filtered_ports.len() - 1) as usize
                } else {
                    (old(self)@.port_selected - 1) as usize
                }),
                ..old(self)@
            }),
            old(self)@.current_tab is Tunnels && old(self)@.tunnels.len() > 0 ==> final(self)@
                == (AppRec {
                tunnel_selected: (if old(self)@.tunnel_selected == 0 {
                    (old(self)@.tunnels.len() - 1) as usize
                } else {
                    (old(self)@.tunnel_selected - 1) as usize
                }),
                ..old(self)@
            }),
            old(self)@.current_tab is Ports && old(self)@.filtered_ports.len() == 0 ==> final(self)@ == old(self)@,
            old(self)@.current_tab is Tunnels && old(self)@.tunnels.len() == 0 ==> final(self)@
                == old(self)@,
    {
        match self.current_tab {
            AppTab::Ports => {
                let len: usize = self.filtered_ports.len();
                if len > 0 {
                    self.port_selected = if self.port_selected == 0 {
                        len - 1
                    } else {
                        self.port_selected - 1
                    };
                }
            },
            AppTab::Tunnels => {
                let len: usize = self.tunnel_manager.tunnels.len();
                if len > 0 {
                    self.tunnel_selected = if self.tunnel_selected == 0 {
                        len - 1
                    } else {
                        self.tunnel_selected - 1
                    };
                }
            },
        }
    }

    /// Jump the active pane's cursor to the first row.
    pub fn select_first(&mut self)
        ensures
            old(self)@.current_tab is Ports ==> final(self)@ == (AppRec {
                port_selected: 0usize,
                ..old(self)@
            }),
            old(self)@.current_tab is Tunnels ==> final(self)@ == (AppRec {
                tunnel_selected: 0usize,
                ..old(self)@
            }),
    {
        match self.current_tab {
            AppTab::Ports => {
                self.port_selected = 0;
            },
            AppTab::Tunnels => {
                self.tunnel_selected = 0;
            },
        }
    }

    /// Jump the active pane's cursor to the last row.
    pub fn select_last(&mut self)
        ensures
            old(self)@.current_tab is Ports && old(self)@.filtered_ports.len() > 0 ==> final(self)@ == (AppRec {
                port_selected: (old(self)@.filtered_ports.len() - 1) as usize,
                ..old(self)@
            }),
            old(self)@.current_tab is Tunnels && old(self)@.tunnels.len() > 0 ==> final(self)@
                == (AppRec {
                tunnel_selected: (old(self)@.tunnels.len() - 1) as usize,
                ..old(self)@
            }),
            old(self)@.current_tab is Ports && old(self)@.filtered_ports.len() == 0 ==> final(self)@ == old(self)@,
            old(self)@.current_tab is Tunnels && old(self)@.tunnels.len() == 0 ==> final(self)@
                == old(self)@,
    {
        match self.current_tab {
            AppTab::Ports => {
                let len: usize = self.filtered_ports.len();
                if len > 0 {
                    self.port_selected = len - 1;
                }
            },
            AppTab::Tunnels => {
                let len: usize = self.tunnel_manager.tunnels.len();
                if len > 0 {
                    self.tunnel_selected = len - 1;
                }
            },
        }
    }

    /// Ask for confirmation before killing the process under the cursor.
    pub fn request_kill(&mut self)
        ensures
            old(self)@.port_selected < old(self)@.filtered_ports.len() ==> final(self)@ == (
            AppRec {
                show_confirm: true,
                pending_action: Some(
                    PendingRec::KillProcess(
                        old(self)@.filtered_ports[old(self)@.port_selected as int].pid,
                    ),
                ),
                ..old(self)@
            }),
            old(self)@.port_selected >= old(self)@.filtered_ports.len() ==> final(self)@ == old(self)@,
    {
        if self.port_selected < self.filtered_ports.len() {
            proof {
                assert(self.filtered_ports.deep_view()[self.port_selected as int]
                    == self.filtered_ports@[self.port_selected as int]@);
            }
            let pid: i32 = self.filtered_ports[self.port_selected].pid;
            self.pending_action = Some(PendingAction::KillProcess(pid));
            self.show_confirm = true;
        }
    }

    /// Ask for confirmation before deleting the tunnel under the cursor.
    pub fn request_delete_tunnel(&mut self)
        ensures
            old(self)@.tunnel_selected < old(self)@.tunnels.len() ==> final(self)@ == (AppRec {
                show_confirm: true,
                pending_action: Some(
                    PendingRec::DeleteTunnel(
                        old(self)@.tunnels[old(self)@.tunnel_selected as int].name,
                    ),
                ),
                ..old(self)@
            }),
            old(self)@.tunnel_selected >= old(self)@.tunnels.len() ==> final(self)@ == old(self)@,
    {
        if self.tunnel_selected < self.tunnel_manager.tunnels.len() {
            proof {
                assert(self.tunnel_manager.tunnels.deep_view()[self.tunnel_selected as int]
                    == self.tunnel_manager.tunnels@[self.tunnel_selected as int]@);
            }
            let e = &self.tunnel_manager.tunnels[self.tunnel_selected];
            let name: Vec<u8> = slice_part_to_vec(e.name.as_slice(), 0, e.name.len());
            proof {
                assert(name@ =~= e.name@);
            }
            self.pending_action = Some(PendingAction::DeleteTunnel(name));
            self.show_confirm = true;
        }
    }

    /// Close the confirmation dialog and hand the pending action to the
    /// surrounding program, which performs it.
    pub fn confirm_action(&mut self) -> (r: Option<PendingAction>)
        ensures
            final(self)@ == (AppRec { show_confirm: false, pending_action: None, ..old(self)@ }),
            old(self)@.pending_action is Some ==> r is Some && r.unwrap()@ == old(self)@.pending_action.unwrap(),
            old(self)@.pending_action is None ==> r is None,
    {
        self.show_confirm = false;
        let r = self.pending_action.take();
        r
    }

    /// Begin the four-step add-tunnel dialog.
    pub fn start_add_tunnel(&mut self)
        ensures
            final(self)@ == (AppRec {
                new_tunnel: Some(
                    TunnelRec {
                        name: Seq::<u8>::empty(),
                        ssh_host: Seq::<u8>::empty(),
                        local_port: 0u16,
                        remote_target: Seq::<u8>::empty(),
                        process: None,
                    },
                ),
                input_mode: InputMode::TunnelName,
                input_buffer: Seq::<u8>::empty(),
                show_input: true,
                ..old(self)@
            }),
    {
        let blank = TunnelConfig::default();
        proof {
            assert(blank@ =~= TunnelRec {
                name: Seq::<u8>::empty(),
                ssh_host: Seq::<u8>::empty(),
                local_port: 0u16,
                remote_target: Seq::<u8>::empty(),
                process: None,
            });
        }
        self.new_tunnel = Some(blank);
        self.input_mode = InputMode::TunnelName;
        self.input_buffer = Vec::new();
        self.show_input = true;
        proof {
            assert(self.input_buffer@ =~= Seq::<u8>::empty());
        }
    }

    /// Abandon the add-tunnel dialog.
    pub fn cancel_input(&mut self)
        ensures
            final(self)@ == (AppRec {
                show_input: false,
                input_mode: InputMode::Idle,
                new_tunnel: None,
                input_buffer: Seq::<u8>::empty(),
                ..old(self)@
            }),
    {
        self.show_input = false;
        self.input_mode = InputMode::Idle;
        self.new_tunnel = None;
        self.input_buffer = Vec::new();
        proof {
            assert(self.input_buffer@ =~= Seq::<u8>::empty());
        }
    }

    /// Accept the text in the input buffer for the current dialog step.
    ///
    /// An all-whitespace entry is refused. The four steps fill the pending
    /// definition's name, endpoint, local port (which must parse as a
    /// sixteen-bit number) and remote target; completing the last step adds
    /// the definition to the registry with replace-by-name semantics and
    /// reports `true`, telling the caller to persist the registry.
    pub fn submit_input(&mut self) -> (persist: bool)
        ensures
            ({
                let inp = spec_trim(old(self)@.input_buffer);
                &&& (inp.len() == 0 ==> final(self)@ == (AppRec {
                    status: StatusRec::InputEmpty,
                    ..old(self)@
                }) && !persist)
                &&& (inp.len() > 0 && old(self)@.new_tunnel is None ==> final(self)@ == old(
                    self,
                )@ && !persist)
                &&& (inp.len() > 0 && old(self)@.new_tunnel is Some ==> ({
                    let t = old(self)@.new_tunnel.unwrap();
                    match old(self)@.input_mode {
                        InputMode::Idle => final(self)@ == old(self)@ && !persist,
                        InputMode::TunnelName => final(self)@ == (AppRec {
                            new_tunnel: Some(TunnelRec { name: inp, ..t }),
                            input_mode: InputMode::TunnelHost,
                            input_buffer: Seq::<u8>::empty(),
                            ..old(self)@
                        }) && !persist,
                        InputMode::TunnelHost => final(self)@ == (AppRec {
                            new_tunnel: Some(TunnelRec { ssh_host: inp, ..t }),
                            input_mode: InputMode::TunnelLocalPort,
                            input_buffer: Seq::<u8>::empty(),
                            ..old(self)@
                        }) && !persist,
                        InputMode::TunnelLocalPort => match spec_parse_u16(inp) {
                            Some(p) => final(self)@ == (AppRec {
                                new_tunnel: Some(TunnelRec { local_port: p, ..t }),
                                input_mode: InputMode::TunnelRemotePort,
                                input_buffer: Seq::<u8>::empty(),
                                ..old(self)@
                            }) && !persist,
                            None => final(self)@ == (AppRec {
                                status: StatusRec::InvalidPort,
                                ..old(self)@
                            }) && !persist,
                        },
                        InputMode::TunnelRemotePort => ({
                            let done = TunnelRec { remote_target: inp, ..t };
                            final(self)@ == (AppRec {
                                tunnels: old(self)@.tunnels.filter(
                                    |x: TunnelRec| x.name != done.name,
                                ).push(done),
                                status: StatusRec::TunnelAdded(done.name),
                                new_tunnel: None,
                                show_input: false,
                                input_mode: InputMode::Idle,
                                ..old(self)@
                            }) && persist
                        }),
                    }
                }))
            }),
    {
        let input: Vec<u8> = trim_bytes(self.input_buffer.as_slice());
        if input.len() == 0 {
            self.status = StatusNote::InputEmpty;
            return false;
        }
        if self.new_tunnel.is_none() {
            return false;
        }
        match self.input_mode {
            InputMode::Idle => false,
            InputMode::TunnelName => {
                match &mut self.new_tunnel {
                    Some(t) => {
                        t.name = input;
                    },
                    None => {},
                }
                self.input_mode = InputMode::TunnelHost;
                self.input_buffer = Vec::new();
                proof {
                    assert(self.input_buffer@ =~= Seq::<u8>::empty());
                }
                false
            },
            InputMode::TunnelHost => {
                match &mut self.new_tunnel {
                    Some(t) => {
                        t.ssh_host = input;
                    },
                    None => {},
                }
                self.input_mode = InputMode::TunnelLocalPort;
                self.input_buffer = Vec::new();
                proof {
                    assert(self.input_buffer@ =~= Seq::<u8>::empty());
                }
                false
            },
            InputMode::TunnelLocalPort => {
                match parse_u16_bytes(input.as_slice()) {
                    Some(port) => {
                        match &mut self.new_tunnel {
                            Some(t) => {
                                t.local_port = port;
                            },
                            None => {},
                        }
                        self.input_mode = InputMode::TunnelRemotePort;
                        self.input_buffer = Vec::new();
                        proof {
                            assert(self.input_buffer@ =~= Seq::<u8>::empty());
                        }
                    },
                    None => {
                        self.status = StatusNote::InvalidPort;
                    },
                }
                false
            },
            InputMode::TunnelRemotePort => {
                let mut t: TunnelConfig = match self.new_tunnel.take() {
                    Some(t) => t,
                    None => TunnelConfig::default(),
                };
                t.remote_target = input;
                let name_copy: Vec<u8> = slice_part_to_vec(t.name.as_slice(), 0, t.name.len());
                proof {
                    assert(name_copy@ =~= t.name@);
                }
                self.tunnel_manager.add(t);
                self.status = StatusNote::TunnelAdded(name_copy);
                self.show_input = false;
                self.input_mode = InputMode::Idle;
                true
            },
        }
    }

    /// Begin connecting the tunnel under the cursor. With the port already
    /// bound by an SSH-owned process the attempt is refused as
    /// informational. Otherwise the returned pair is the forwarding
    /// specification and the SSH endpoint for the caller to spawn the SSH
    /// client with; the caller then waits the settle delay, re-queries the
    /// port and hands the outcome to `connect_tunnel_finish`.
    pub fn connect_tunnel(&mut self, observed: Option<u32>) -> (r: Option<(Vec<u8>, Vec<u8>)>)
        ensures
            old(self)@.tunnel_selected >= old(self)@.tunnels.len() ==> final(self)@ == old(
                self,
            )@ && r is None,
            old(self)@.tunnel_selected < old(self)@.tunnels.len() ==> ({
                let t = old(self)@.tunnels[old(self)@.tunnel_selected as int];
                &&& (observed is Some ==> final(self)@ == (AppRec {
                    status: StatusRec::AlreadyConnected(t.name),
                    ..old(self)@
                }) && r is None)
                &&& (observed is None ==> final(self)@ == old(self)@ && r is Some
                    && r.unwrap().0@ == spec_dec_u(t.local_port as int) + seq![58u8]
                    + t.remote_target && r.unwrap().1@ == t.ssh_host)
            }),
    {
        if self.tunnel_selected >= self.tunnel_manager.tunnels.len() {
            return None;
        }
        proof {
            assert(self.tunnel_manager.tunnels.deep_view()[self.tunnel_selected as int]
                == self.tunnel_manager.tunnels@[self.tunnel_selected as int]@);
        }
        let t = &self.tunnel_manager.tunnels[self.tunnel_selected];
        match observed {
            Some(_) => {
                let name: Vec<u8> = slice_part_to_vec(t.name.as_slice(), 0, t.name.len());
                proof {
                    assert(name@ =~= t.name@);
                }
                self.status = StatusNote::AlreadyConnected(name);
                None
            },
            None => {
                let fwd = t.forward_spec();
                let host: Vec<u8> = slice_part_to_vec(t.ssh_host.as_slice(), 0, t.ssh_host.len());
                proof {
                    assert(host@ =~= t.ssh_host@);
                }
                Some((fwd, host))
            },
        }
    }

    /// Record the outcome of a connection attempt: the pid observed on the
    /// local port after the settle delay, or the SSH client's captured
    /// diagnostic text when nothing is bound.
    pub fn connect_tunnel_finish(&mut self, observed: Option<u32>, diagnostic: Vec<u8>)
        ensures
            old(self)@.tunnel_selected >= old(self)@.tunnels.len() ==> final(self)@ == old(
                self,
            )@,
            old(self)@.tunnel_selected < old(self)@.tunnels.len() ==> ({
                let t = old(self)@.tunnels[old(self)@.tunnel_selected as int];
                &&& (observed is Some ==> final(self)@ == (AppRec {
                    tunnels: old(self)@.tunnels.update(
                        old(self)@.tunnel_selected as int,
                        TunnelRec { process: observed, ..t },
                    ),
                    status: StatusRec::Connected(t.name),
                    ..old(self)@
                }))
                &&& (observed is None ==> final(self)@ == (AppRec {
                    status: StatusRec::ConnectFailed(diagnostic@),
                    ..old(self)@
                }))
            }),
    {
        let sel: usize = self.tunnel_selected;
        if sel >= self.tunnel_manager.tunnels.len() {
            return;
        }
        let ghost dv = self.tunnel_manager.tunnels.deep_view();
        proof {
            assert(dv[sel as int] == self.tunnel_manager.tunnels@[sel as int]@);
        }
        match observed {
            Some(pid) => {
                let mut t: TunnelConfig = self.tunnel_manager.tunnels.remove(sel);
                let name: Vec<u8> = slice_part_to_vec(t.name.as_slice(), 0, t.name.len());
                proof {
                    assert(name@ =~= t.name@);
                }
                t.apply_connect_check(observed);
                self.tunnel_manager.tunnels.insert(sel, t);
                self.status = StatusNote::Connected(name);
                proof {
                    assert(self.tunnel_manager.tunnels.deep_view() =~= dv.update(
                        sel as int,
                        TunnelRec { process: observed, ..dv[sel as int] },
                    ));
                    assert(final(self)@ =~= (AppRec {
                        tunnels: dv.update(
                            sel as int,
                            TunnelRec { process: observed, ..dv[sel as int] },
                        ),
                        status: StatusRec::Connected(dv[sel as int].name),
                        ..old(self)@
                    }));
                }
            },
            None => {
                self.status = StatusNote::ConnectFailed(diagnostic);
            },
        }
    }

    /// Disconnect the tunnel under the cursor. With nothing bound on its
    /// port the request is refused as informational; otherwise the
    /// returned pid is the one the caller should signal, and the recorded
    /// pid is cleared.
    pub fn disconnect_tunnel(&mut self, observed: Option<u32>) -> (r: Option<u32>)
        ensures
            old(self)@.tunnel_selected >= old(self)@.tunnels.len() ==> final(self)@ == old(
                self,
            )@ && r is None,
            old(self)@.tunnel_selected < old(self)@.tunnels.len() ==> ({
                let t = old(self)@.tunnels[old(self)@.tunnel_selected as int];
                &&& (observed is None ==> final(self)@ == (AppRec {
                    status: StatusRec::NotConnected(t.name),
                    ..old(self)@
                }) && r is None)
                &&& (observed is Some ==> final(self)@ == (AppRec {
                    tunnels: old(self)@.tunnels.update(
                        old(self)@.tunnel_selected as int,
                        TunnelRec { process: None, ..t },
                    ),
                    status: StatusRec::Disconnected(t.name),
                    ..old(self)@
                }) && r == (if t.process is Some {
                    t.process
                } else {
                    observed
                }))
            }),
    {
        let sel: usize = self.tunnel_selected;
        if sel >= self.tunnel_manager.tunnels.len() {
            return None;
        }
        let ghost dv = self.tunnel_manager.tunnels.deep_view();
        proof {
            assert(dv[sel as int] == self.tunnel_manager.tunnels@[sel as int]@);
        }
        match observed {
            None => {
                let t = &self.tunnel_manager.tunnels[sel];
                let name: Vec<u8> = slice_part_to_vec(t.name.as_slice(), 0, t.name.len());
                proof {
                    assert(name@ =~= t.name@);
                }
                self.status = StatusNote::NotConnected(name);
                None
            },
            Some(_) => {
                let mut t: TunnelConfig = self.tunnel_manager.tunnels.remove(sel);
                let name: Vec<u8> = slice_part_to_vec(t.name.as_slice(), 0, t.name.len());
                proof {
                    assert(name@ =~= t.name@);
                }
                let r = t.disconnect(observed);
                self.tunnel_manager.tunnels.insert(sel, t);
                self.status = StatusNote::Disconnected(name);
                proof {
                    assert(self.tunnel_manager.tunnels.deep_view() =~= dv.update(
                        sel as int,
                        TunnelRec { process: None, ..dv[sel as int] },
                    ));
                    assert(final(self)@ =~= (AppRec {
                        tunnels: dv.update(
                            sel as int,
                            TunnelRec { process: None, ..dv[sel as int] },
                        ),
                        status: StatusRec::Disconnected(dv[sel as int].name),
                        ..old(self)@
                    }));
                }
                r
            },
        }
    }

    /// Carry out a confirmed deletion: remove the definition, clamp the
    /// cursor, report it, and hand back the pid a best-effort disconnect
    /// should signal. The caller persists the registry afterwards.
    pub fn delete_tunnel_confirmed(&mut self, name: &[u8], observed: Option<u32>) -> (r: Option<
        u32,
    >)
        ensures
            final(self)@ == (AppRec {
                tunnels: old(self)@.tunnels.filter(|t: TunnelRec| t.name != name@),
                tunnel_selected: spec_clamp(
                    old(self)@.tunnel_selected,
                    old(self)@.tunnels.filter(|t: TunnelRec| t.name != name@).len() as int,
                ),
                status: StatusRec::TunnelDeleted(name@),
                ..old(self)@
            }),
            r == (match spec_find_name(old(self)@.tunnels, name@) {
                Some(i) => if old(self)@.tunnels[i].process is Some {
                    old(self)@.tunnels[i].process
                } else {
                    observed
                },
                None => None,
            }),
    {
        let r = self.tunnel_manager.remove(name, observed);
        let len: usize = self.tunnel_manager.tunnels.len();
        if self.tunnel_selected >= len && len > 0 {
            self.tunnel_selected = len - 1;
        }
        let name_copy: Vec<u8> = slice_part_to_vec(name, 0, name.len());
        proof {
            assert(name_copy@ =~= name@);
        }
        self.status = StatusNote::TunnelDeleted(name_copy);
        r
    }
}

} // verus!
