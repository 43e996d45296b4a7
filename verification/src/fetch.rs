//! Asking the binary caches for the record of a store item.
//!
//! The cache roots are asked in order. A root that does not have the item
//! is left for the next at once. A root that fails is asked again after a
//! wait, which starts at 64 milliseconds and doubles with each failure,
//! until it was asked as often as allowed; then the next root is tried.
//! The requests and the waits are the caller's part: here it is decided
//! what to do next.

use vstd::prelude::*;
use vstd::string::*;
use vstd::utf8::*;

use crate::hash::StoreHash;
use crate::narinfo::{absent_body, narinfo_of, NarInfo, NarInfoView};

verus! {

/// The status by which a cache says that it does not have an item.
pub const NOT_FOUND: u16 = 404;

/// The first wait behind a failure, in milliseconds.
pub const FIRST_DELAY: u64 = 64;

/// What came of asking one cache root.
#[derive(Debug)]
pub enum Reply {
    /// The root has the item, and this is its record.
    Found(NarInfo),
    /// The root does not have the item.
    Absent,
    /// The request failed, or what came back is no record.
    Failed,
}

/// What a [`Reply`] holds.
pub enum ReplyView {
    Found(NarInfoView),
    Absent,
    Failed,
}

impl DeepView for Reply {
    type V = ReplyView;

    open spec fn deep_view(&self) -> ReplyView {
        match self {
            Reply::Found(info) => ReplyView::Found(info@),
            Reply::Absent => ReplyView::Absent,
            Reply::Failed => ReplyView::Failed,
        }
    }
}

impl View for Reply {
    type V = ReplyView;

    open spec fn view(&self) -> ReplyView {
        self.deep_view()
    }
}

/// What a response says: the item is absent where the status is 404 or
/// the body is the three bytes `404`; else the body has to hold a record.
pub open spec fn reply_of(status: u16, body: Seq<u8>) -> ReplyView {
    if status == NOT_FOUND {
        ReplyView::Absent
    } else {
        match narinfo_of(body) {
            Ok(Some(info)) => ReplyView::Found(info),
            Ok(None) => ReplyView::Absent,
            Err(_) => ReplyView::Failed,
        }
    }
}

/// The body `404` says what the status 404 says, whatever comes with
/// either.
pub proof fn lemma_absent_either_way(status: u16, body: Seq<u8>)
    ensures
        reply_of(status, absent_body()) == ReplyView::Absent,
        reply_of(NOT_FOUND, body) == ReplyView::Absent,
{
}

/// Reads what a response says.
pub fn read_response(status: u16, body: &[u8]) -> (reply: Reply)
    ensures
        reply@ == reply_of(status, body@),
{
    if status == NOT_FOUND {
        return Reply::Absent;
    }
    match NarInfo::from(body) {
        Ok(Some(info)) => Reply::Found(info),
        Ok(None) => Reply::Absent,
        Err(_) => Reply::Failed,
    }
}

/// The wait behind the failure that follows `failures` others at the same
/// root, in milliseconds: 64, doubled with each, as far as 64 bits hold
/// it.
pub open spec fn backoff(failures: nat) -> nat
    decreases failures,
{
    if failures == 0 {
        FIRST_DELAY as nat
    } else if 2 * backoff((failures - 1) as nat) > u64::MAX {
        u64::MAX as nat
    } else {
        2 * backoff((failures - 1) as nat)
    }
}

/// How far the lookup of one item has come.
#[derive(Debug, Clone, Copy)]
pub struct Lookup {
    roots: usize,
    max_attempts: u32,
    root: usize,
    failures: u32,
    delay: u64,
}

/// What a [`Lookup`] holds: how many roots there are and how often each
/// may be asked, the root to ask next, and how often it has failed.
pub struct LookupView {
    pub roots: nat,
    pub max_attempts: nat,
    pub root: nat,
    pub failures: nat,
}

/// What to do next for a lookup.
#[derive(Debug, Clone, Copy, PartialEq, Eq)]
pub enum Plan {
    /// Ask the cache root of this position.
    Ask(usize),
    /// No root is left to ask: the item is not found.
    GiveUp,
}

/// What follows from a reply.
#[derive(Debug)]
pub enum Outcome {
    /// The item is found, and this is its record.
    Found(NarInfo),
    /// Go on at once.
    GoOn,
    /// Go on after a wait of so many milliseconds.
    Wait(u64),
}

/// What an [`Outcome`] holds.
pub enum OutcomeView {
    Found(NarInfoView),
    GoOn,
    Wait(u64),
}

impl DeepView for Outcome {
    type V = OutcomeView;

    open spec fn deep_view(&self) -> OutcomeView {
        match self {
            Outcome::Found(info) => OutcomeView::Found(info@),
            Outcome::GoOn => OutcomeView::GoOn,
            Outcome::Wait(delay) => OutcomeView::Wait(*delay),
        }
    }
}

impl View for Outcome {
    type V = OutcomeView;

    open spec fn view(&self) -> OutcomeView {
        self.deep_view()
    }
}

impl LookupView {
    /// Whether a root is left to ask.
    pub open spec fn asks(self) -> bool {
        self.max_attempts > 0 && self.root < self.roots
    }

    /// The lookup at the next root.
    pub open spec fn at_next_root(self) -> LookupView {
        LookupView {
            roots: self.roots,
            max_attempts: self.max_attempts,
            root: self.root + 1,
            failures: 0,
        }
    }

    /// The lookup after a reply: unchanged where the item is found or no
    /// root was to be asked; at the next root where this one does not
    /// have the item or has failed as often as allowed; else at the same
    /// root with one more failure.
    pub open spec fn react(self, reply: ReplyView) -> LookupView {
        if !self.asks() {
            self
        } else {
            match reply {
                ReplyView::Found(_) => self,
                ReplyView::Absent => self.at_next_root(),
                ReplyView::Failed => if self.failures + 1 >= self.max_attempts {
                    self.at_next_root()
                } else {
                    LookupView {
                        roots: self.roots,
                        max_attempts: self.max_attempts,
                        root: self.root,
                        failures: self.failures + 1,
                    }
                },
            }
        }
    }

    /// What follows from a reply.
    pub open spec fn outcome(self, reply: ReplyView) -> OutcomeView {
        match reply {
            ReplyView::Found(info) => OutcomeView::Found(info),
            ReplyView::Absent => OutcomeView::GoOn,
            ReplyView::Failed => if self.asks() {
                OutcomeView::Wait(backoff(self.failures) as u64)
            } else {
                OutcomeView::GoOn
            },
        }
    }
}

impl LookupView {
    /// How many requests the lookup can still make: for each root left,
    /// as many as are allowed, less the failures of the root it is at.
    pub open spec fn requests_left(self) -> nat {
        if self.asks() {
            ((self.roots - self.root) * self.max_attempts - self.failures) as nat
        } else {
            0
        }
    }

    /// Each reply but a record leaves fewer requests to make, so a lookup
    /// comes to its end.
    pub proof fn lemma_reply_uses_a_request(self, reply: ReplyView)
        requires
            self.asks(),
            self.failures < self.max_attempts,
            !(reply is Found),
        ensures
            self.react(reply).requests_left() < self.requests_left(),
    {
        let roots_left = self.roots - self.root;
        let allowed = self.max_attempts as int;
        assert(roots_left * allowed - (roots_left - 1) * allowed == allowed) by (nonlinear_arith);
        assert((roots_left - 1) * allowed >= 0) by (nonlinear_arith)
            requires
                roots_left >= 1,
                allowed >= 0,
        ;
    }
}

impl View for Lookup {
    type V = LookupView;

    closed spec fn view(&self) -> LookupView {
        LookupView {
            roots: self.roots as nat,
            max_attempts: self.max_attempts as nat,
            root: self.root as nat,
            failures: self.failures as nat,
        }
    }
}

/// The wait never exceeds what 64 bits hold.
pub proof fn lemma_backoff_bound(failures: nat)
    ensures
        FIRST_DELAY <= backoff(failures) <= u64::MAX,
    decreases failures,
{
    if failures > 0 {
        lemma_backoff_bound((failures - 1) as nat);
    }
}

impl Lookup {
    #[verifier::type_invariant]
    spec fn wf(self) -> bool {
        &&& self.root <= self.roots
        &&& self.delay == backoff(self.failures as nat)
        &&& self@.asks() ==> self.failures < self.max_attempts
    }

    /// A lookup over `roots` cache roots, each asked up to `max_attempts`
    /// times.
    pub fn new(roots: usize, max_attempts: u32) -> (lookup: Lookup)
        ensures
            lookup@ == (LookupView {
                roots: roots as nat,
                max_attempts: max_attempts as nat,
                root: 0,
                failures: 0,
            }),
    {
        Lookup { roots, max_attempts, root: 0, failures: 0, delay: FIRST_DELAY }
    }

    /// What to do next.
    pub fn plan(&self) -> (plan: Plan)
        ensures
            match plan {
                Plan::Ask(root) => self@.asks() && root == self@.root,
                Plan::GiveUp => !self@.asks(),
            },
    {
        if self.max_attempts > 0 && self.root < self.roots {
            Plan::Ask(self.root)
        } else {
            Plan::GiveUp
        }
    }

    /// The lookup at the next root.
    fn at_next_root(&self) -> (next: Lookup)
        requires
            self@.asks(),
        ensures
            next@ == self@.at_next_root(),
    {
        proof {
            use_type_invariant(self);
        }
        Lookup {
            roots: self.roots,
            max_attempts: self.max_attempts,
            root: self.root + 1,
            failures: 0,
            delay: FIRST_DELAY,
        }
    }

    /// Takes the reply of the root that was asked.
    pub fn react(&mut self, reply: Reply) -> (outcome: Outcome)
        ensures
            final(self)@ == old(self)@.react(reply@),
            outcome@ == old(self)@.outcome(reply@),
            old(self)@.asks() && !(reply@ is Found) ==> final(self)@.requests_left()
                < old(self)@.requests_left(),
    {
        proof {
            use_type_invariant(&*self);
            if self@.asks() && !(reply@ is Found) {
                self@.lemma_reply_uses_a_request(reply@);
            }
        }
        let asks = self.max_attempts > 0 && self.root < self.roots;
        match reply {
            Reply::Found(info) => Outcome::Found(info),
            Reply::Absent => {
                if asks {
                    *self = self.at_next_root();
                }
                Outcome::GoOn
            },
            Reply::Failed => {
                if !asks {
                    return Outcome::GoOn;
                }
                let wait = self.delay;
                if self.failures + 1 >= self.max_attempts {
                    *self = self.at_next_root();
                } else {
                    proof {
                        lemma_backoff_bound(self.failures as nat);
                    }
                    *self = Lookup {
                        roots: self.roots,
                        max_attempts: self.max_attempts,
                        root: self.root,
                        failures: self.failures + 1,
                        delay: if self.delay > u64::MAX / 2 {
                            u64::MAX
                        } else {
                            self.delay * 2
                        },
                    };
                }
                Outcome::Wait(wait)
            },
        }
    }
}

/// The address that joining a reference to a base address gives, where
/// both can be read.
pub uninterp spec fn joined_url(base: Seq<char>, reference: Seq<char>) -> Option<Seq<char>>;

/// Reads `base` with `Url::parse` and resolves `reference` against it
/// with `Url::join`.
/// Trusted: the result is the text of the joined address, and there is
/// none where the base or the joined address cannot be read.
#[verifier::external_body]
fn join_url(base: &str, reference: &str) -> (joined: Option<String>)
    ensures
        match joined {
            Some(address) => joined_url(base@, reference@) == Some(address@),
            None => joined_url(base@, reference@) is None,
        },
{
    match url::Url::parse(base) {
        Ok(base) => base.join(reference).ok().map(String::from),
        Err(_) => None,
    }
}

/// The name under which a cache serves the record of `hash`.
pub open spec fn narinfo_name(hash: Seq<u8>) -> Seq<char> {
    decode_utf8(hash) + ".narinfo"@
}

/// The address under which the cache at `root` serves the record of
/// `hash`: none where the hash is no text.
pub open spec fn narinfo_url_of(root: Seq<char>, hash: Seq<u8>) -> Option<Seq<char>> {
    if valid_utf8(hash) {
        joined_url(root, narinfo_name(hash))
    } else {
        None
    }
}

/// The address under which the cache at `root` serves the record of
/// `hash`.
pub fn narinfo_url(root: &str, hash: &StoreHash) -> (address: Option<String>)
    ensures
        match address {
            Some(address) => narinfo_url_of(root@, hash@) == Some(address@),
            None => narinfo_url_of(root@, hash@) is None,
        },
{
    match hash.as_text() {
        Some(text) => {
            let name = text.to_owned().concat(".narinfo");
            join_url(root, name.as_str())
        },
        None => None,
    }
}

} // verus!
