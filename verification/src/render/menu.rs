//! The menu: hosting, joining, rejoining, and what is shown meanwhile.

use crate::render::app::{arm_round, armable, refusal_text, AppPhase, ArmedRound, ReadyMatch};
use crate::text::{
    chars_of, decimal, push_decimal, push_text, string_of, trim_chars, trimmed,
};
use crate::transport::short_id;
use crate::telemetry::{hex_text, is_endpoint};
use vstd::prelude::*;
use vstd::string::*;

verus! {

/// The id of the endpoint that a text spells, if it spells one.
pub uninterp spec fn endpoint_named(t: Seq<char>) -> Option<Seq<u8>>;

/// An id by value.
pub open spec fn id_view(id: Option<[u8; 32]>) -> Option<Seq<u8>> {
    match id {
        Some(b) => Some(b@),
        None => None,
    }
}

/// `iroh::EndpointId::from_str`, and the bytes of the id that it gives: whether a text spells
/// an id, and which, depends on the text alone; and the 64 lower-case hexadecimal digits of an
/// endpoint's id spell that id. What else spells an id is left unsaid.
#[verifier::external_body]
fn parse_endpoint(t: &str) -> (r: Option<[u8; 32]>)
    ensures
        id_view(r) == endpoint_named(t@),
        forall|id: Seq<u8>|
            is_endpoint(id) && id.len() == 32 && t@ == #[trigger] hex_text(id) ==> id_view(r)
                == Some(id),
{
    match t.parse::<iroh::EndpointId>() {
        Ok(id) => Some(*id.as_bytes()),
        Err(_) => None,
    }
}

/// A press in the menu.
#[derive(Debug, Clone, Copy, PartialEq, Eq, Structural)]
pub enum MenuInput {
    Up,
    Down,
    Confirm,
    Back,
}

/// What the player chose.
#[derive(Debug, Clone, Copy, PartialEq, Eq, Structural)]
pub enum MenuAction {
    Nothing,
    Host,
    Join,
    StartNetworked,
    StartSolo,
    Cancel,
    Rejoin,
}

/// How a match is to be formed.
#[derive(Debug, Clone, Copy, PartialEq, Eq)]
pub enum StartChoice {
    Host,
    /// With a given host, or whoever is found.
    Join(Option<[u8; 32]>),
}

/// Where the focus is put.
#[derive(Debug, Clone, Copy, PartialEq, Eq, Structural)]
pub enum NavReset {
    /// The menu's start.
    Fresh,
    /// The chooser's join entry.
    ChooserJoin,
    /// The screen of a lost connection.
    Disconnected,
}

/// What this launch brings to every match it forms or joins.
#[derive(Debug, Clone, Copy, PartialEq, Eq)]
pub struct MatchTerms {
    pub seed: u64,
    /// The collector that reports go to, if there is one.
    pub telemetry: Option<[u8; 32]>,
    pub asset_digest: u64,
    pub crab_count: u8,
}

/// What is to be done.
#[derive(Debug)]
pub enum MenuOrder {
    Nothing,
    /// Form a match.
    Form { choice: StartChoice, terms: MatchTerms },
    /// Start the match that is being formed.
    RequestStart,
    /// Give up forming, and play alone.
    PlaySolo { seed: u64, cancel_forming: bool },
    /// Give up forming.
    Abandon { cancel_forming: bool },
    /// Dial the host again.
    Redial { host: [u8; 32], terms: MatchTerms },
    /// Play the round.
    Play(ArmedRound),
}

/// What a step of the menu comes to.
#[derive(Debug)]
pub struct MenuStep {
    pub order: MenuOrder,
    pub nav: Option<NavReset>,
    pub next: Option<AppPhase>,
    /// The frame is over.
    pub done: bool,
}

/// The menu.
#[derive(Debug)]
pub struct MenuState {
    terms: MatchTerms,
    code_input: String,
    stick_latched: bool,
    forming: bool,
    rejoining: bool,
    error: Option<String>,
    last_host: Option<[u8; 32]>,
}

/// The menu by value.
pub struct MenuView {
    pub terms: MatchTerms,
    pub code_input: Seq<char>,
    pub stick_latched: bool,
    pub forming: bool,
    pub rejoining: bool,
    pub error: Option<Seq<char>>,
    pub last_host: Option<Seq<u8>>,
}

impl View for MenuState {
    type V = MenuView;

    closed spec fn view(&self) -> MenuView {
        MenuView {
            terms: self.terms,
            code_input: self.code_input@,
            stick_latched: self.stick_latched,
            forming: self.forming,
            rejoining: self.rejoining,
            error: match self.error {
                Some(e) => Some(e@),
                None => None,
            },
            last_host: id_view(self.last_host),
        }
    }
}

fn quiet() -> (s: MenuStep)
    ensures
        s.order is Nothing,
        s.nav is None,
        s.next is None,
        !s.done,
{
    MenuStep { order: MenuOrder::Nothing, nav: None, next: None, done: false }
}

/// What is said of a code that is none.
pub open spec fn bad_code() -> Seq<char> {
    "That join code isn't a valid endpoint id."@
}

/// The host that a code names: none for an empty code; `None` where it names nothing.
pub open spec fn host_named(code: Seq<char>) -> Option<Option<Seq<u8>>> {
    if trimmed(code).len() == 0 {
        Some(None)
    } else {
        match endpoint_named(trimmed(code)) {
            Some(id) => Some(Some(id)),
            None => None,
        }
    }
}

/// Forming a match has begun.
pub open spec fn forming_begun(s: MenuView) -> MenuView {
    MenuView { error: None, forming: true, ..s }
}

impl MenuState {
    /// The menu of a launch: nothing entered, nothing under way.
    pub fn new(
        seed: u64,
        telemetry: Option<[u8; 32]>,
        asset_digest: u64,
        crab_count: u8,
    ) -> (s: Self)
        ensures
            s@ == (MenuView {
                terms: MatchTerms { seed, telemetry, asset_digest, crab_count },
                code_input: Seq::empty(),
                stick_latched: false,
                forming: false,
                rejoining: false,
                error: None,
                last_host: None,
            }),
    {
        let s = MenuState {
            terms: MatchTerms { seed, telemetry, asset_digest, crab_count },
            code_input: String::new(),
            stick_latched: false,
            forming: false,
            rejoining: false,
            error: None,
            last_host: None,
        };
        assert(s.code_input@ =~= Seq::empty());
        s
    }

    /// The join code as it now reads.
    pub fn type_code(&mut self, code: &str)
        ensures
            final(self)@ == (MenuView { code_input: code@, ..old(self)@ }),
    {
        self.code_input = String::from_str(code);
    }

    /// The code that was entered.
    pub fn code_input(&self) -> (s: &str)
        ensures
            s@ == self@.code_input,
    {
        self.code_input.as_str()
    }

    /// The menu comes up: the focus is at its start, and a stick still held counts again.
    pub fn reset_menu_nav(&mut self) -> (nav: NavReset)
        ensures
            final(self)@ == (MenuView { stick_latched: false, ..old(self)@ }),
            nav == NavReset::Fresh,
    {
        self.stick_latched = false;
        NavReset::Fresh
    }

    /// The presses of a frame, as [`gather_menu_inputs`] gathers them.
    pub fn gather(
        &mut self,
        keys: MenuPresses,
        typing: bool,
        pads: MenuPresses,
        tilt: StickTilt,
    ) -> (v: Vec<MenuInput>)
        ensures
            final(self)@ == (MenuView {
                stick_latched: latched_by(tilt, old(self)@.stick_latched),
                ..old(self)@
            }),
            v@ == gathered(keys, typing, pads, tilt, old(self)@.stick_latched),
    {
        let mut latched: bool = self.stick_latched;
        let v = gather_menu_inputs(keys, typing, pads, tilt, &mut latched);
        self.stick_latched = latched;
        v
    }

    /// What went wrong last, to be shown.
    pub fn error(&self) -> (r: Option<&str>)
        ensures
            match r {
                Some(s) => self@.error == Some(s@),
                None => self@.error is None,
            },
    {
        match &self.error {
            Some(e) => Some(e.as_str()),
            None => None,
        }
    }

    /// The host of the round that was lost.
    pub fn last_host(&self) -> (r: Option<[u8; 32]>)
        ensures
            id_view(r) == self@.last_host,
    {
        self.last_host
    }

    fn start_forming(&mut self, choice: StartChoice) -> (r: MenuStep)
        ensures
            final(self)@ == forming_begun(old(self)@),
            r.order == (MenuOrder::Form { choice, terms: old(self)@.terms }),
            r.nav is None,
            r.next == Some(AppPhase::Connecting),
            r.done,
    {
        self.error = None;
        self.forming = true;
        MenuStep {
            order: MenuOrder::Form { choice, terms: self.terms },
            nav: None,
            next: Some(AppPhase::Connecting),
            done: true,
        }
    }

    /// Join the host that a code turned out to name: `Ok(None)` for an empty code, `Err` for
    /// one that names nothing.
    pub fn join_named(&mut self, host: Result<Option<[u8; 32]>, ()>) -> (r: MenuStep)
        ensures
            match host {
                Ok(h) => {
                    &&& final(self)@ == forming_begun(old(self)@)
                    &&& r.order == (MenuOrder::Form {
                        choice: StartChoice::Join(h),
                        terms: old(self)@.terms,
                    })
                    &&& r.nav is None
                    &&& r.next == Some(AppPhase::Connecting)
                    &&& r.done
                },
                Err(_) => {
                    &&& final(self)@ == (MenuView { error: Some(bad_code()), ..old(self)@ })
                    &&& r.order is Nothing
                    &&& r.nav == Some(NavReset::ChooserJoin)
                    &&& r.next is None
                    &&& !r.done
                },
            },
    {
        match host {
            Ok(h) => self.start_forming(StartChoice::Join(h)),
            Err(_) => {
                self.error = Some(String::from_str("That join code isn't a valid endpoint id."));
                MenuStep {
                    order: MenuOrder::Nothing,
                    nav: Some(NavReset::ChooserJoin),
                    next: None,
                    done: false,
                }
            },
        }
    }

    /// Join with the code that was entered. The code that a host shows joins that host.
    pub fn join(&mut self) -> (r: MenuStep)
        ensures
            match host_named(old(self)@.code_input) {
                Some(h) => {
                    &&& final(self)@ == forming_begun(old(self)@)
                    &&& r.order matches MenuOrder::Form { choice: StartChoice::Join(got), terms }
                        && id_view(got) == h && terms == old(self)@.terms
                    &&& r.nav is None
                    &&& r.next == Some(AppPhase::Connecting)
                    &&& r.done
                },
                None => {
                    &&& final(self)@ == (MenuView { error: Some(bad_code()), ..old(self)@ })
                    &&& r.order is Nothing
                    &&& r.nav == Some(NavReset::ChooserJoin)
                    &&& r.next is None
                    &&& !r.done
                },
            },
            forall|id: Seq<u8>|
                is_endpoint(id) && id.len() == 32 && trimmed(old(self)@.code_input)
                    == #[trigger] hex_text(id) ==> (r.order matches MenuOrder::Form {
                    choice: StartChoice::Join(Some(got)),
                    ..
                } && got@ == id),
    {
        let mut v = chars_of(self.code_input.as_str());
        trim_chars(&mut v);
        if v.len() == 0 {
            return self.join_named(Ok(None));
        }
        let t = string_of(v.as_slice());
        let parsed = parse_endpoint(t.as_str());
        match parsed {
            Some(id) => self.join_named(Ok(Some(id))),
            None => self.join_named(Err(())),
        }
    }

    /// Carry out what the player chose.
    pub fn apply_action(&mut self, action: MenuAction) -> (r: MenuStep)
        ensures
            match action {
                MenuAction::Nothing => {
                    &&& final(self)@ == old(self)@
                    &&& r.order is Nothing && r.nav is None && r.next is None && !r.done
                },
                MenuAction::Host => {
                    &&& final(self)@ == forming_begun(old(self)@)
                    &&& r.order == (MenuOrder::Form {
                        choice: StartChoice::Host,
                        terms: old(self)@.terms,
                    })
                    &&& r.nav is None && r.next == Some(AppPhase::Connecting) && r.done
                },
                MenuAction::Join => match host_named(old(self)@.code_input) {
                    Some(h) => {
                        &&& final(self)@ == forming_begun(old(self)@)
                        &&& r.order matches MenuOrder::Form {
                            choice: StartChoice::Join(got),
                            terms,
                        } && id_view(got) == h && terms == old(self)@.terms
                        &&& r.nav is None && r.next == Some(AppPhase::Connecting) && r.done
                    },
                    None => {
                        &&& final(self)@ == (MenuView { error: Some(bad_code()), ..old(self)@ })
                        &&& r.order is Nothing && r.nav == Some(NavReset::ChooserJoin)
                        &&& r.next is None && !r.done
                    },
                },
                MenuAction::StartNetworked => {
                    &&& final(self)@ == old(self)@
                    &&& if old(self)@.forming {
                        r.order is RequestStart
                    } else {
                        r.order is Nothing
                    }
                    &&& r.nav is None && r.next is None && !r.done
                },
                MenuAction::StartSolo => {
                    &&& final(self)@ == (MenuView { forming: false, ..old(self)@ })
                    &&& r.order == (MenuOrder::PlaySolo {
                        seed: old(self)@.terms.seed,
                        cancel_forming: old(self)@.forming,
                    })
                    &&& r.nav is None && r.next == Some(AppPhase::Playing) && r.done
                },
                MenuAction::Cancel => {
                    &&& final(self)@ == (MenuView {
                        forming: false,
                        rejoining: false,
                        ..old(self)@
                    })
                    &&& r.order == (MenuOrder::Abandon { cancel_forming: old(self)@.forming })
                    &&& r.nav is None && r.next == Some(AppPhase::Menu) && r.done
                },
                MenuAction::Rejoin => match old(self)@.last_host {
                    Some(h) => {
                        &&& final(self)@ == (MenuView {
                            error: None,
                            rejoining: true,
                            ..old(self)@
                        })
                        &&& r.order matches MenuOrder::Redial { host, terms } && host@ == h
                            && terms == old(self)@.terms
                        &&& r.nav is None && r.next == Some(AppPhase::Connecting) && r.done
                    },
                    None => {
                        &&& final(self)@ == old(self)@
                        &&& r.order is Nothing && r.nav == Some(NavReset::Fresh)
                        &&& r.next is None && !r.done
                    },
                },
            },
            final(self)@.terms == old(self)@.terms,
            final(self)@.code_input == old(self)@.code_input,
            final(self)@.last_host == old(self)@.last_host,
            r.done <==> r.next is Some,
            r.next == Some(AppPhase::Menu) <==> action is Cancel,
            r.next == Some(AppPhase::Connecting) <==> r.order is Form || r.order is Redial,
            r.next == Some(AppPhase::Playing) <==> r.order is PlaySolo,
            r.order is Form ==> final(self)@.forming && final(self)@.error is None,
            r.order is Redial ==> final(self)@.rejoining && final(self)@.error is None,
            r.order is PlaySolo || r.order is Abandon ==> !final(self)@.forming,
            r.order is RequestStart ==> old(self)@.forming && final(self)@.forming,
    {
        match action {
            MenuAction::Nothing => quiet(),
            MenuAction::Host => self.start_forming(StartChoice::Host),
            MenuAction::Join => self.join(),
            MenuAction::StartNetworked => {
                let mut s = quiet();
                if self.forming {
                    s.order = MenuOrder::RequestStart;
                }
                s
            },
            MenuAction::StartSolo => {
                let cancel_forming: bool = self.forming;
                self.forming = false;
                MenuStep {
                    order: MenuOrder::PlaySolo { seed: self.terms.seed, cancel_forming },
                    nav: None,
                    next: Some(AppPhase::Playing),
                    done: true,
                }
            },
            MenuAction::Cancel => {
                let cancel_forming: bool = self.forming;
                self.forming = false;
                self.rejoining = false;
                MenuStep {
                    order: MenuOrder::Abandon { cancel_forming },
                    nav: None,
                    next: Some(AppPhase::Menu),
                    done: true,
                }
            },
            MenuAction::Rejoin => {
                match self.last_host {
                    None => {
                        let mut s = quiet();
                        s.nav = Some(NavReset::Fresh);
                        s
                    },
                    Some(host) => {
                        self.error = None;
                        self.rejoining = true;
                        MenuStep {
                            order: MenuOrder::Redial { host, terms: self.terms },
                            nav: None,
                            next: Some(AppPhase::Connecting),
                            done: true,
                        }
                    },
                }
            },
        }
    }

    /// A round is ready: play it, or say why it may not be.
    fn arm_and_play(&mut self, ready: ReadyMatch) -> (r: MenuStep)
        ensures
            armed(old(self)@, ready, final(self)@, r),
            r.nav is None,
    {
        match arm_round(ready) {
            Ok(a) => MenuStep {
                order: MenuOrder::Play(a),
                nav: None,
                next: Some(AppPhase::Playing),
                done: true,
            },
            Err(msg) => {
                self.error = Some(msg);
                MenuStep {
                    order: MenuOrder::Nothing,
                    nav: None,
                    next: Some(AppPhase::Menu),
                    done: true,
                }
            },
        }
    }

    /// Look at the match that is being formed.
    pub fn poll_formation(&mut self, p: FormationPoll) -> (r: MenuStep)
        ensures
            if !old(self)@.forming || p is Pending {
                &&& final(self)@ == old(self)@
                &&& r.order is Nothing && r.nav is None && r.next is None && !r.done
            } else {
                let s = MenuView { forming: false, ..old(self)@ };
                match p {
                    FormationPoll::Ready(m) => armed(s, m, final(self)@, r) && r.nav is None,
                    FormationPoll::Cancelled => {
                        &&& final(self)@ == s
                        &&& r.order is Nothing && r.nav is None
                        &&& r.next == Some(AppPhase::Menu) && r.done
                    },
                    FormationPoll::Failed(e) => {
                        &&& final(self)@ == (MenuView {
                            error: Some("Couldn't form a match: "@ + e@),
                            ..s
                        })
                        &&& r.order is Nothing && r.nav is None
                        &&& r.next == Some(AppPhase::Menu) && r.done
                    },
                    FormationPoll::Pending => true,
                }
            },
            final(self)@.terms == old(self)@.terms,
            final(self)@.last_host == old(self)@.last_host,
            r.done <==> old(self)@.forming && !final(self)@.forming,
            r.done <==> r.next is Some,
            r.order is Play <==> r.next == Some(AppPhase::Playing),
            r.done && !(r.order is Play) && !(p is Cancelled) ==> final(self)@.error is Some,
            r.order is Play || p is Cancelled ==> final(self)@.error == old(self)@.error,
    {
        if !self.forming {
            return quiet();
        }
        let back = MenuStep {
            order: MenuOrder::Nothing,
            nav: None,
            next: Some(AppPhase::Menu),
            done: true,
        };
        match p {
            FormationPoll::Pending => quiet(),
            FormationPoll::Ready(m) => {
                self.forming = false;
                self.arm_and_play(m)
            },
            FormationPoll::Cancelled => {
                self.forming = false;
                back
            },
            FormationPoll::Failed(e) => {
                self.forming = false;
                self.error = Some(two_texts("Couldn't form a match: ", e.as_str()));
                back
            },
        }
    }

    /// Look at the host that is being dialed again.
    pub fn poll_rejoin(&mut self, p: RejoinPoll) -> (r: MenuStep)
        ensures
            if !old(self)@.rejoining || p is Pending {
                &&& final(self)@ == old(self)@
                &&& r.order is Nothing && r.nav is None && r.next is None && !r.done
            } else {
                let s = MenuView { rejoining: false, ..old(self)@ };
                &&& r.nav == Some(NavReset::Fresh)
                &&& match p {
                    RejoinPoll::Joined(m) => armed(
                        MenuView { last_host: None, ..s },
                        m,
                        final(self)@,
                        r,
                    ),
                    RejoinPoll::Refused(reason) => {
                        &&& final(self)@ == (MenuView {
                            error: Some("The host refused our rejoin: "@ + reason@),
                            last_host: None,
                            ..s
                        })
                        &&& r.order is Nothing && r.next == Some(AppPhase::Menu) && r.done
                    },
                    RejoinPoll::Unreachable => {
                        &&& final(self)@ == (MenuView {
                            error: Some(unreachable_text()),
                            last_host: None,
                            ..s
                        })
                        &&& r.order is Nothing && r.next == Some(AppPhase::Menu) && r.done
                    },
                    RejoinPoll::Failed(e) => {
                        &&& final(self)@ == (MenuView {
                            error: Some("Rejoin failed: "@ + e@),
                            ..s
                        })
                        &&& r.order is Nothing && r.next == Some(AppPhase::Menu) && r.done
                    },
                    RejoinPoll::Pending => true,
                }
            },
            final(self)@.terms == old(self)@.terms,
            final(self)@.forming == old(self)@.forming,
            r.done <==> old(self)@.rejoining && !final(self)@.rejoining,
            r.done <==> r.next is Some,
            r.order is Play <==> r.next == Some(AppPhase::Playing),
            r.done && !(r.order is Play) ==> final(self)@.error is Some,
            !r.done || p is Failed ==> final(self)@.last_host == old(self)@.last_host,
            r.done && !(p is Failed) ==> final(self)@.last_host is None,
    {
        if !self.rejoining {
            return quiet();
        }
        let back = MenuStep {
            order: MenuOrder::Nothing,
            nav: Some(NavReset::Fresh),
            next: Some(AppPhase::Menu),
            done: true,
        };
        match p {
            RejoinPoll::Pending => quiet(),
            RejoinPoll::Joined(m) => {
                self.rejoining = false;
                self.last_host = None;
                let mut s = self.arm_and_play(m);
                s.nav = Some(NavReset::Fresh);
                s
            },
            RejoinPoll::Refused(reason) => {
                self.rejoining = false;
                self.last_host = None;
                self.error = Some(two_texts("The host refused our rejoin: ", reason.as_str()));
                back
            },
            RejoinPoll::Unreachable => {
                self.rejoining = false;
                self.last_host = None;
                self.error = Some(
                    String::from_str(
                        "The host is unreachable — it may have quit. Host a new match, or join a fresh code.",
                    ),
                );
                back
            },
            RejoinPoll::Failed(e) => {
                self.rejoining = false;
                self.error = Some(two_texts("Rejoin failed: ", e.as_str()));
                back
            },
        }
    }

    /// A round was lost: its host can be rejoined.
    pub fn consume_round_over(&mut self, message: String, host: [u8; 32]) -> (nav: NavReset)
        ensures
            final(self)@ == (MenuView {
                error: Some(message@),
                last_host: Some(host@),
                ..old(self)@
            }),
            nav == NavReset::Disconnected,
    {
        self.error = Some(message);
        self.last_host = Some(host);
        NavReset::Disconnected
    }

    /// Which screen is up.
    pub fn screen(&self, phase: AppPhase, disconnected: bool) -> (s: MenuScreen)
        ensures
            s == (match phase {
                AppPhase::Menu => if disconnected {
                    MenuScreen::Disconnected
                } else {
                    MenuScreen::Chooser
                },
                AppPhase::Connecting => if self@.rejoining {
                    MenuScreen::Rejoining
                } else {
                    MenuScreen::Lobby
                },
                AppPhase::Playing => MenuScreen::Nothing,
            }),
    {
        match phase {
            AppPhase::Menu => if disconnected {
                MenuScreen::Disconnected
            } else {
                MenuScreen::Chooser
            },
            AppPhase::Connecting => if self.rejoining {
                MenuScreen::Rejoining
            } else {
                MenuScreen::Lobby
            },
            AppPhase::Playing => MenuScreen::Nothing,
        }
    }
}

/// What came of a round that was ready: it is played, or the menu says why not.
pub open spec fn armed(
    before: MenuView,
    ready: ReadyMatch,
    after: MenuView,
    r: MenuStep,
) -> bool {
    &&& r.done
    &&& if armable(ready.sync) {
        &&& after == before
        &&& r.order matches MenuOrder::Play(a) && a.round() == ready
        &&& r.next == Some(AppPhase::Playing)
    } else {
        &&& after == (MenuView { error: Some(refusal_text(ready.sync->0)), ..before })
        &&& r.order is Nothing
        &&& r.next == Some(AppPhase::Menu)
    }
}

fn two_texts(a: &str, b: &str) -> (s: String)
    ensures
        s@ == a@ + b@,
{
    let mut out = String::new();
    push_text(&mut out, a);
    push_text(&mut out, b);
    assert(out@ =~= a@ + b@);
    out
}

/// What is said of a host that does not answer.
pub open spec fn unreachable_text() -> Seq<char> {
    "The host is unreachable — it may have quit. Host a new match, or join a fresh code."@
}

/// What a look at the match that is being formed found.
#[derive(Debug)]
pub enum FormationPoll {
    Pending,
    Ready(ReadyMatch),
    Cancelled,
    Failed(String),
}

/// What a look at the host that is being dialed again found.
#[derive(Debug)]
pub enum RejoinPoll {
    Pending,
    Joined(ReadyMatch),
    Refused(String),
    Unreachable,
    Failed(String),
}

/// A screen of the menu.
#[derive(Debug, Clone, Copy, PartialEq, Eq, Structural)]
pub enum MenuScreen {
    Chooser,
    Disconnected,
    Rejoining,
    Lobby,
    Nothing,
}

/// Fresh presses, by what they mean.
#[derive(Debug, Clone, Copy, PartialEq, Eq, Structural)]
pub struct MenuPresses {
    pub up: bool,
    pub down: bool,
    pub confirm: bool,
    pub back: bool,
}

/// How far a stick is pushed: at rest, not far enough to count, or up or down far enough.
#[derive(Debug, Clone, Copy, PartialEq, Eq, Structural)]
pub enum StickTilt {
    Rest,
    Between,
    Up,
    Down,
}

/// Presses in their order.
pub open spec fn presses(p: MenuPresses) -> Seq<MenuInput> {
    (if p.up {
        seq![MenuInput::Up]
    } else {
        Seq::empty()
    }) + (if p.down {
        seq![MenuInput::Down]
    } else {
        Seq::empty()
    }) + (if p.confirm {
        seq![MenuInput::Confirm]
    } else {
        Seq::empty()
    }) + (if p.back {
        seq![MenuInput::Back]
    } else {
        Seq::empty()
    })
}

/// A stick counts once until it comes to rest.
pub open spec fn stick_moves(tilt: StickTilt, latched: bool) -> bool {
    !latched && (tilt is Up || tilt is Down)
}

fn push_presses(out: &mut Vec<MenuInput>, p: MenuPresses)
    ensures
        final(out)@ == old(out)@ + presses(p),
{
    let ghost b = out@;
    if p.up {
        out.push(MenuInput::Up);
    }
    if p.down {
        out.push(MenuInput::Down);
    }
    if p.confirm {
        out.push(MenuInput::Confirm);
    }
    if p.back {
        out.push(MenuInput::Back);
    }
    assert(out@ =~= b + presses(p));
}

/// Whether the stick counts as held after a tilt.
pub open spec fn latched_by(tilt: StickTilt, latched: bool) -> bool {
    match tilt {
        StickTilt::Rest => false,
        StickTilt::Between => latched,
        _ => true,
    }
}

/// The presses of a frame: the keys', unless a text is being typed, then the pads' with the
/// stick's.
pub open spec fn gathered(
    keys: MenuPresses,
    typing: bool,
    pads: MenuPresses,
    tilt: StickTilt,
    latched: bool,
) -> Seq<MenuInput> {
    (if typing {
        Seq::empty()
    } else {
        presses(keys)
    }) + presses(
        MenuPresses {
            up: pads.up || (tilt is Up && stick_moves(tilt, latched)),
            down: pads.down || (tilt is Down && stick_moves(tilt, latched)),
            ..pads
        },
    )
}


/// Gather a frame's presses: the keyboard's, unless a text is being typed, then the pads' and
/// the stick's.
pub fn gather_menu_inputs(
    keys: MenuPresses,
    typing: bool,
    pads: MenuPresses,
    tilt: StickTilt,
    latched: &mut bool,
) -> (v: Vec<MenuInput>)
    ensures
        *final(latched) == latched_by(tilt, *old(latched)),
        v@ == gathered(keys, typing, pads, tilt, *old(latched)),
{
    let mut out: Vec<MenuInput> = Vec::new();
    if !typing {
        push_presses(&mut out, keys);
    }
    let free: bool = !*latched;
    let mut p = pads;
    match tilt {
        StickTilt::Rest => {
            *latched = false;
        },
        StickTilt::Between => {},
        StickTilt::Up => {
            *latched = true;
            p.up = p.up || free;
        },
        StickTilt::Down => {
            *latched = true;
            p.down = p.down || free;
        },
    }
    let ghost b = out@;
    push_presses(&mut out, p);
    assert(out@ =~= (if typing {
        Seq::empty()
    } else {
        presses(keys)
    }) + presses(p));
    out
}

/// A stick that is held counts once.
pub proof fn lemma_held_stick_counts_once(tilt: StickTilt)
    requires
        tilt is Up || tilt is Down,
    ensures
        stick_moves(tilt, false),
        !stick_moves(tilt, true),
{
}

/// What heads the lobby's list.
pub open spec fn lobby_head(n: nat) -> Seq<char> {
    if n == 0 {
        "Players: (connecting…)"@
    } else {
        "Players in the lobby: "@ + decimal(n)
    }
}

/// A player in the lobby's list.
pub open spec fn lobby_line(id: Seq<u8>, me: Option<Seq<u8>>) -> Seq<char> {
    "  • "@ + hex_text(id.take(5)) + (if me == Some(id) {
        "  (you)"@
    } else {
        ""@
    })
}

/// The lobby's list.
pub open spec fn lobby_lines(ids: Seq<[u8; 32]>, me: Option<Seq<u8>>) -> Seq<Seq<char>> {
    seq![lobby_head(ids.len())] + Seq::new(ids.len(), |i: int| lobby_line(ids[i]@, me))
}

fn same_bytes(a: &[u8; 32], b: &[u8; 32]) -> (r: bool)
    ensures
        r == (a@ == b@),
{
    let lt: bool = crate::transport::id_before(a, b);
    let gt: bool = crate::transport::id_before(b, a);
    proof {
        crate::transport::lemma_id_total(a@, b@);
        crate::transport::lemma_id_total(b@, a@);
    }
    !lt && !gt
}

/// The lobby's list.
pub fn lobby_roster(ids: &Vec<[u8; 32]>, me: Option<[u8; 32]>) -> (v: Vec<String>)
    ensures
        crate::text::texts(v@) == lobby_lines(ids@, id_view(me)),
{
    let mut out: Vec<String> = Vec::new();
    let mut head = String::new();
    if ids.len() == 0 {
        push_text(&mut head, "Players: (connecting…)");
    } else {
        push_text(&mut head, "Players in the lobby: ");
        push_decimal(&mut head, ids.len() as u64);
    }
    assert(head@ =~= lobby_head(ids@.len()));
    out.push(head);
    let mut i: usize = 0;
    while i < ids.len()
        invariant
            i <= ids@.len(),
            out@.len() == i + 1,
            out@[0]@ == lobby_head(ids@.len()),
            forall|k: int|
                0 <= k < i ==> (#[trigger] out@[k + 1])@ == lobby_line(ids@[k]@, id_view(me)),
        decreases ids@.len() - i,
    {
        let mut line = String::new();
        push_text(&mut line, "  • ");
        let short = short_id(&ids[i]);
        push_text(&mut line, short.as_str());
        let you: bool = match &me {
            Some(m) => same_bytes(m, &ids[i]),
            None => false,
        };
        if you {
            push_text(&mut line, "  (you)");
        } else {
            push_text(&mut line, "");
        }
        assert(line@ =~= lobby_line(ids@[i as int]@, id_view(me)));
        let ghost b = out@;
        out.push(line);
        assert forall|k: int| 0 <= k < i + 1 implies (#[trigger] out@[k + 1])@ == lobby_line(
            ids@[k]@,
            id_view(me),
        ) by {
            if k < i {
                assert(out@[k + 1] == b[k + 1]);
            }
        }
        i = i + 1;
    }
    assert(crate::text::texts(out@) =~= lobby_lines(ids@, id_view(me))) by {
        let t = crate::text::texts(out@);
        let w = lobby_lines(ids@, id_view(me));
        assert forall|k: int| 0 <= k < t.len() implies t[k] == w[k] by {
            if k > 0 {
                assert(out@[(k - 1) + 1]@ == lobby_line(ids@[k - 1]@, id_view(me)));
            }
        }
    }
    out
}

/// The lines of the lobby's head: what is being done, and the code or the host.
pub open spec fn lobby_status(hosting: bool, code: Option<Seq<u8>>) -> Seq<char> {
    if hosting {
        match code {
            Some(c) => hex_text(c),
            None => "(starting host — code will appear shortly)"@,
        }
    } else {
        match code {
            Some(c) => "Dialing host "@ + hex_text(c.take(5)) + "…"@,
            None => "Discovering a host on the LAN…"@,
        }
    }
}

pub fn lobby_status_line(hosting: bool, code: Option<[u8; 32]>) -> (s: String)
    ensures
        s@ == lobby_status(hosting, id_view(code)),
{
    let mut out = String::new();
    if hosting {
        match &code {
            Some(c) => {
                return crate::telemetry::encode_key_hex(c);
            },
            None => push_text(&mut out, "(starting host — code will appear shortly)"),
        }
    } else {
        match &code {
            Some(c) => {
                push_text(&mut out, "Dialing host ");
                let short = short_id(c);
                push_text(&mut out, short.as_str());
                push_text(&mut out, "…");
            },
            None => push_text(&mut out, "Discovering a host on the LAN…"),
        }
    }
    assert(out@ =~= lobby_status(hosting, id_view(code)));
    out
}

/// The label that starts a match: alone it says so.
pub open spec fn start_text(members: nat) -> Seq<char> {
    if members <= 1 {
        "Start (solo — nobody has joined)"@
    } else {
        "Start the match"@
    }
}

pub fn start_label(members: usize) -> (s: &'static str)
    ensures
        s@ == start_text(members as nat),
{
    if members <= 1 {
        "Start (solo — nobody has joined)"
    } else {
        "Start the match"
    }
}

/// The label that rejoins a match.
pub open spec fn rejoin_text(host: Option<Seq<u8>>) -> Seq<char> {
    match host {
        Some(h) => "Rejoin the match (host "@ + hex_text(h.take(5)) + ")"@,
        None => "Rejoin the match"@,
    }
}

pub fn rejoin_label(host: Option<[u8; 32]>) -> (s: String)
    ensures
        s@ == rejoin_text(id_view(host)),
{
    let mut out = String::new();
    match &host {
        Some(h) => {
            push_text(&mut out, "Rejoin the match (host ");
            let short = short_id(h);
            push_text(&mut out, short.as_str());
            push_text(&mut out, ")");
        },
        None => push_text(&mut out, "Rejoin the match"),
    }
    assert(out@ =~= rejoin_text(id_view(host)));
    out
}

/// White space around a code does not matter.
pub proof fn lemma_code_spacing_does_not_matter(a: Seq<char>, b: Seq<char>)
    requires
        trimmed(a) == trimmed(b),
    ensures
        host_named(a) == host_named(b),
{
}

} // verus!
