use vstd::prelude::*;

verus! {

/// What a file-system notification reported.
#[derive(Clone, Copy, PartialEq, Eq, Structural, Debug)]
pub enum Change {
    Any,
    Access,
    Create,
    /// The content of a file was written.
    Data,
    Metadata,
    Name,
    OtherModify,
    Remove,
    Other,
}

/// A content change, tagged with what it concerns.
#[derive(Clone, Copy, PartialEq, Eq, Structural, Debug)]
pub enum Event {
    /// The configuration file.
    Config,
    /// A schema file that entry `i` depends on.
    Openapi(usize),
    /// The template input tree of entry `i`.
    Input(usize),
}

/// One unit of work for the loop that drives the pipeline.
#[derive(Clone, Copy, PartialEq, Eq, Structural, Debug)]
pub enum Step {
    /// Drop every entry and watch, read the configuration again and start over.
    Reload,
    /// Watch the configuration file.
    WatchConfig,
    /// Resolve entry `i` and list its templates.
    Prepare(usize),
    /// Resolve entry `i`, list its templates, and watch its dependencies and input tree.
    Setup(usize),
    /// Unwatch entry `i`'s dependencies, resolve it again and watch the new dependencies.
    Refresh(usize),
    /// List entry `i`'s templates again.
    Templates(usize),
    /// Move the stale outputs of all entries to the trash.
    Clean,
    /// Render entry `i`'s templates.
    Render(usize),
}

/// Only a write to a file's content calls for work.
pub open spec fn is_actionable(c: Change) -> bool {
    c == Change::Data
}

pub open spec fn setups(n: nat) -> Seq<Step> {
    Seq::new(n, |i: int| Step::Setup(i as usize))
}

pub open spec fn prepares(n: nat) -> Seq<Step> {
    Seq::new(n, |i: int| Step::Prepare(i as usize))
}

/// A single pass over `n` entries: prepare every entry, clean once, then render
/// every entry.
pub open spec fn once_steps(n: nat) -> Seq<Step> {
    prepares(n) + seq![Step::Clean] + renders(n)
}

pub open spec fn renders(n: nat) -> Seq<Step> {
    Seq::new(n, |i: int| Step::Render(i as usize))
}

/// The start of a session over `n` entries: watch the configuration, set every
/// entry up, clean once, then render every entry.
pub open spec fn startup_steps(n: nat) -> Seq<Step> {
    seq![Step::WatchConfig] + setups(n) + seq![Step::Clean] + renders(n)
}

/// The work that an event calls for.
pub open spec fn event_steps(e: Event) -> Seq<Step> {
    match e {
        Event::Config => seq![Step::Reload],
        Event::Openapi(i) => seq![Step::Refresh(i), Step::Clean, Step::Render(i)],
        Event::Input(i) => seq![Step::Templates(i), Step::Clean, Step::Render(i)],
    }
}

pub open spec fn event_in_range(e: Event, n: nat) -> bool {
    match e {
        Event::Config => true,
        Event::Openapi(i) => i < n,
        Event::Input(i) => i < n,
    }
}

pub struct Watcher;

impl Watcher {
    /// Whether a notification calls for work.
    pub fn actionable(c: Change) -> (r: bool)
        ensures
            r == is_actionable(c),
    {
        match c {
            Change::Data => true,
            _ => false,
        }
    }

    /// The steps of a single pass over `n` entries.
    pub fn once(n: usize) -> (r: Vec<Step>)
        ensures
            r@ == once_steps(n as nat),
    {
        let mut r: Vec<Step> = Vec::new();
        let mut i: usize = 0;
        while i < n
            invariant
                i <= n,
                r@ == prepares(i as nat),
            decreases n - i,
        {
            r.push(Step::Prepare(i));
            i = i + 1;
            assert(r@ =~= prepares(i as nat));
        }
        r.push(Step::Clean);
        let ghost head = r@;
        let mut j: usize = 0;
        while j < n
            invariant
                j <= n,
                r@ == head + renders(j as nat),
            decreases n - j,
        {
            r.push(Step::Render(j));
            j = j + 1;
            assert(r@ =~= head + renders(j as nat));
        }
        assert(r@ =~= once_steps(n as nat));
        r
    }

    /// The steps that start a session over `n` entries.
    pub fn startup(n: usize) -> (r: Vec<Step>)
        ensures
            r@ == startup_steps(n as nat),
    {
        let mut r: Vec<Step> = Vec::new();
        r.push(Step::WatchConfig);
        let mut i: usize = 0;
        while i < n
            invariant
                i <= n,
                r@ == seq![Step::WatchConfig] + setups(i as nat),
            decreases n - i,
        {
            r.push(Step::Setup(i));
            i = i + 1;
            assert(r@ =~= seq![Step::WatchConfig] + setups(i as nat));
        }
        r.push(Step::Clean);
        let ghost head = r@;
        let mut j: usize = 0;
        while j < n
            invariant
                j <= n,
                r@ == head + renders(j as nat),
            decreases n - j,
        {
            r.push(Step::Render(j));
            j = j + 1;
            assert(r@ =~= head + renders(j as nat));
        }
        assert(r@ =~= startup_steps(n as nat));
        r
    }

    /// The steps that an event calls for, in a session over `n` entries.
    pub fn steps(e: Event, n: usize) -> (r: Vec<Step>)
        requires
            event_in_range(e, n as nat),
        ensures
            r@ == event_steps(e),
    {
        let mut r: Vec<Step> = Vec::new();
        match e {
            Event::Config => {
                r.push(Step::Reload);
            },
            Event::Openapi(i) => {
                r.push(Step::Refresh(i));
                r.push(Step::Clean);
                r.push(Step::Render(i));
            },
            Event::Input(i) => {
                r.push(Step::Templates(i));
                r.push(Step::Clean);
                r.push(Step::Render(i));
            },
        }
        assert(r@ =~= event_steps(e));
        r
    }
}

} // verus!
