//! The course of one conversion.
//!
//! A conversion first asks each revealer of the key it starts from for the
//! variations of the value, unless it was told to take the given variations
//! as they are. If nothing is left to do it ends there. Otherwise it plans a
//! chain and has its callables called one after the other. When a callable
//! fails, the conversion notes the failure, excludes the edge and plans
//! again, a limited number of times.
//!
//! The conversion calls nothing itself. It says which action it awaits, and
//! is told what came of it.

use crate::edge::{edge_views, Data, Edge, EdgeSet, EdgeView, Key};
use crate::graph::Graph;
use crate::model::{search_result, Query};
use crate::plan::is_plan;
use crate::registry::Registry;
use crate::variations::{Variant, Variations};
use vstd::prelude::*;

verus! {

/// How many times one conversion plans a chain at most.
pub const RETRY_LIMIT: usize = 10;

/// Where a conversion stands.
#[derive(Clone, Copy, PartialEq, Eq, Structural, Debug)]
pub enum Stage {
    /// It awaits the variations that a revealer yields.
    Revealing,
    /// It awaits what comes of the call of a callable.
    Calling,
    /// It has ended: the value is what was wanted as it is.
    Unchanged,
    /// It has ended: every callable of a chain was called.
    Converted,
    /// It has ended: no chain is left to try.
    Failed,
}

/// One conversion, as plain mathematical values.
pub ghost struct ConversionView {
    /// The edges of the graph.
    pub edges: Seq<EdgeView>,
    /// The revealers to ask, in this order.
    pub revealers: Seq<u64>,
    pub key_in: Key,
    pub variations_in: Set<Variant>,
    pub key_want: Key,
    pub variations_want: Set<Variant>,
    /// How many revealers have answered.
    pub revealed: nat,
    /// The edges whose callable has failed.
    pub excluded: Set<EdgeView>,
    /// The failures noted, in the order in which they came.
    pub errors: Seq<Seq<char>>,
    /// How many times a chain was planned.
    pub attempts: nat,
    /// The chain that was planned last.
    pub plan: Seq<EdgeView>,
    /// The position in the plan of the edge whose callable is called.
    pub position: nat,
    pub stage: Stage,
}

/// What a conversion awaits, or how it has ended.
pub ghost enum ActionView {
    /// The revealer with this handle is to be called on the value.
    Reveal(u64),
    /// The callable that the payload names is to be called: on the value
    /// where `restart` holds, else on what the call before gave.
    Call { payload: Data, restart: bool },
    /// The value is the result.
    Unchanged,
    /// What the last call gave is the result.
    Done,
    /// Callables failed and no chain is left: the report of the failures.
    ConversionError(Seq<char>),
    /// There was no chain to try.
    TypeMismatch,
}

/// The lines, each but the first after a line feed.
pub open spec fn joined(lines: Seq<Seq<char>>) -> Seq<char>
    decreases lines.len(),
{
    if lines.len() == 0 {
        Seq::empty()
    } else if lines.len() == 1 {
        lines[0]
    } else {
        joined(lines.drop_last()) + seq!['\n'] + lines.last()
    }
}

/// The report of the failures of a conversion.
pub open spec fn report(errors: Seq<Seq<char>>) -> Seq<char> {
    "Some problems occurred during the conversion process:\n"@ + joined(errors)
}

impl ConversionView {
    /// What the conversion asks a search.
    pub open spec fn query(self) -> Query {
        Query {
            edges: self.edges,
            key_in: self.key_in,
            variations_in: self.variations_in,
            key_out: self.key_want,
            variations_out: self.variations_want,
            excluded: self.excluded,
        }
    }

    /// The conversion after it has planned: it calls the first callable of
    /// the chain that the search finds, or has failed where the search finds
    /// none or the limit of attempts is reached.
    pub open spec fn planned(self) -> ConversionView {
        if self.attempts < RETRY_LIMIT {
            match search_result(self.query()) {
                Some(chain) => ConversionView {
                    attempts: self.attempts + 1,
                    plan: chain,
                    position: 0,
                    stage: Stage::Calling,
                    ..self
                },
                None => ConversionView {
                    attempts: self.attempts + 1,
                    stage: Stage::Failed,
                    ..self
                },
            }
        } else {
            ConversionView { stage: Stage::Failed, ..self }
        }
    }

    /// The conversion after every revealer has answered: it has ended where
    /// the value is what was wanted as it is, and has planned otherwise.
    pub open spec fn resolved(self) -> ConversionView {
        if self.key_in == self.key_want && self.variations_in == self.variations_want {
            ConversionView { stage: Stage::Unchanged, ..self }
        } else {
            self.planned()
        }
    }

    /// The conversion as it goes on after a revealer has answered, or at its
    /// start: it asks the next revealer where one is left.
    pub open spec fn revealing(self) -> ConversionView {
        if self.revealed < self.revealers.len() {
            ConversionView { stage: Stage::Revealing, ..self }
        } else {
            self.resolved()
        }
    }

    /// The conversion after the revealer that it awaited has yielded
    /// `tokens`. Nothing changes where it awaited no revealer.
    pub open spec fn on_revealed(self, tokens: Seq<Variant>) -> ConversionView {
        if self.stage == Stage::Revealing {
            (ConversionView {
                variations_in: self.variations_in.union(tokens.to_set()),
                revealed: self.revealed + 1,
                ..self
            }).revealing()
        } else {
            self
        }
    }

    /// The conversion after the call that it awaited has succeeded. Nothing
    /// changes where it awaited no call.
    pub open spec fn on_success(self) -> ConversionView {
        if self.stage == Stage::Calling {
            if self.position + 1 < self.plan.len() {
                ConversionView { position: self.position + 1, ..self }
            } else {
                ConversionView { stage: Stage::Converted, ..self }
            }
        } else {
            self
        }
    }

    /// The conversion after the call that it awaited has failed with
    /// `message`. Nothing changes where it awaited no call.
    pub open spec fn on_failure(self, message: Seq<char>) -> ConversionView {
        if self.stage == Stage::Calling {
            (ConversionView {
                errors: self.errors.push(message),
                excluded: self.excluded.insert(self.plan[self.position as int]),
                ..self
            }).planned()
        } else {
            self
        }
    }

    /// What the conversion awaits, or how it has ended.
    pub open spec fn awaits(self) -> ActionView {
        match self.stage {
            Stage::Revealing => ActionView::Reveal(self.revealers[self.revealed as int]),
            Stage::Calling => ActionView::Call {
                payload: self.plan[self.position as int].data,
                restart: self.position == 0,
            },
            Stage::Unchanged => ActionView::Unchanged,
            Stage::Converted => ActionView::Done,
            Stage::Failed => if self.errors.len() > 0 {
                ActionView::ConversionError(report(self.errors))
            } else {
                ActionView::TypeMismatch
            },
        }
    }
}

/// The conversion at its start, from `key_in` with `variations_in` to
/// `key_want` with `variations_want`, with these revealers to ask.
pub open spec fn begin(
    edges: Seq<EdgeView>,
    revealers: Seq<u64>,
    key_in: Key,
    variations_in: Set<Variant>,
    key_want: Key,
    variations_want: Set<Variant>,
) -> ConversionView {
    (ConversionView {
        edges,
        revealers,
        key_in,
        variations_in,
        key_want,
        variations_want,
        revealed: 0,
        excluded: Set::empty(),
        errors: Seq::empty(),
        attempts: 0,
        plan: Seq::empty(),
        position: 0,
        stage: Stage::Revealing,
    }).revealing()
}

/// A conversion that asks no revealer, from a key with variations to the
/// same key with the same variations, ends at once with the value as it
/// is, and plans nothing.
pub proof fn lemma_identity(edges: Seq<EdgeView>, key: Key, variations: Set<Variant>)
    ensures
        begin(edges, Seq::empty(), key, variations, key, variations).awaits()
            == ActionView::Unchanged,
        begin(edges, Seq::empty(), key, variations, key, variations).attempts == 0,
{
}

/// No conversion plans more often than the limit allows: what happens to a
/// conversion that has not planned more often leaves it so, and plans once
/// at most.
pub proof fn lemma_retry_bound(v: ConversionView, tokens: Seq<Variant>, message: Seq<char>)
    requires
        v.attempts <= RETRY_LIMIT,
    ensures
        v.attempts <= v.on_revealed(tokens).attempts <= v.attempts + 1,
        v.on_revealed(tokens).attempts <= RETRY_LIMIT,
        v.on_success().attempts == v.attempts,
        v.attempts <= v.on_failure(message).attempts <= v.attempts + 1,
        v.on_failure(message).attempts <= RETRY_LIMIT,
{
}

/// How a conversion has failed.
pub enum Failure {
    /// Callables failed and no chain is left: the report of the failures.
    Conversion(String),
    /// There was no chain to try.
    TypeMismatch,
}

/// What a conversion awaits, or how it has ended.
pub enum Action {
    /// The revealer with this handle is to be called on the value.
    Reveal(u64),
    /// The callable that the payload names is to be called: on the value
    /// where `restart` holds, else on what the call before gave.
    Call { payload: Data, restart: bool },
    /// The value is the result.
    Unchanged,
    /// What the last call gave is the result.
    Done,
    /// The conversion has failed.
    Fail(Failure),
}

impl View for Action {
    type V = ActionView;

    open spec fn view(&self) -> ActionView {
        match self {
            Action::Reveal(handle) => ActionView::Reveal(*handle),
            Action::Call { payload, restart } => ActionView::Call {
                payload: *payload,
                restart: *restart,
            },
            Action::Unchanged => ActionView::Unchanged,
            Action::Done => ActionView::Done,
            Action::Fail(Failure::Conversion(text)) => ActionView::ConversionError(text@),
            Action::Fail(Failure::TypeMismatch) => ActionView::TypeMismatch,
        }
    }
}

/// The views of the lines.
pub open spec fn line_views(lines: Seq<String>) -> Seq<Seq<char>> {
    lines.map_values(|line: String| line@)
}

/// The report of the failures of a conversion: a heading, and the failures
/// one to a line.
pub fn report_of(errors: &Vec<String>) -> (r: String)
    ensures
        r@ == report(line_views(errors@)),
{
    let mut out = String::from_str("Some problems occurred during the conversion process:\n");
    let ghost heading = out@;
    let ghost lines = line_views(errors@);
    let mut i: usize = 0;
    assert(lines.take(0) =~= Seq::empty());
    assert(out@ =~= heading + joined(lines.take(0)));
    while i < errors.len()
        invariant
            i <= errors.len(),
            lines == line_views(errors@),
            heading == "Some problems occurred during the conversion process:\n"@,
            out@ == heading + joined(lines.take(i as int)),
        decreases errors.len() - i,
    {
        let ghost before = out@;
        if i > 0 {
            proof {
                reveal_strlit("\n");
            }
            out.append("\n");
            assert("\n"@ =~= seq!['\n']);
        }
        out.append(errors[i].as_str());
        proof {
            let now = lines.take(i + 1);
            assert(now.drop_last() =~= lines.take(i as int));
            assert(now.last() == errors[i as int]@);
            if i == 0 {
                assert(joined(lines.take(0)) =~= Seq::empty());
                assert(out@ =~= heading + joined(now));
            } else {
                assert(out@ =~= heading + (joined(lines.take(i as int)) + seq!['\n'] + now.last()));
            }
        }
        i += 1;
    }
    assert(lines.take(errors.len() as int) =~= lines);
    out
}

/// The line that notes the failure of a callable: the kind of the error, a
/// colon and a space, and what the error says.
pub open spec fn failure_line(kind: Seq<char>, says: Seq<char>) -> Seq<char> {
    kind + ": "@ + says
}

/// The line that notes the failure of a callable.
pub fn failure_line_of(kind: &str, says: &str) -> (r: String)
    ensures
        r@ == failure_line(kind@, says@),
{
    let mut out = String::from_str(kind);
    out.append(": ");
    out.append(says);
    out
}

/// What is said when there was no chain to try, of the value and of what
/// was wanted.
pub open spec fn mismatch(value: Seq<char>, wanted: Seq<char>) -> Seq<char> {
    "Could not convert "@ + value + " to "@ + wanted
        + ". Perhaps some conversion steps are missing."@
}

/// What is said when there was no chain to try.
pub fn mismatch_of(value: &str, wanted: &str) -> (r: String)
    ensures
        r@ == mismatch(value@, wanted@),
{
    let mut out = String::from_str("Could not convert ");
    out.append(value);
    out.append(" to ");
    out.append(wanted);
    out.append(". Perhaps some conversion steps are missing.");
    out
}

/// One conversion.
pub struct Conversion<'a> {
    graph: &'a Graph,
    revealers: Vec<u64>,
    key_in: Key,
    variations_in: Variations,
    key_want: Key,
    variations_want: Variations,
    revealed: usize,
    skip_edges: EdgeSet,
    errors: Vec<String>,
    attempts: usize,
    plan: Vec<Edge>,
    position: usize,
    stage: Stage,
}

impl<'a> View for Conversion<'a> {
    type V = ConversionView;

    closed spec fn view(&self) -> ConversionView {
        ConversionView {
            edges: self.graph@,
            revealers: self.revealers@,
            key_in: self.key_in,
            variations_in: self.variations_in@,
            key_want: self.key_want,
            variations_want: self.variations_want@,
            revealed: self.revealed as nat,
            excluded: self.skip_edges@,
            errors: line_views(self.errors@),
            attempts: self.attempts as nat,
            plan: self.plan@.map_values(|e: Edge| e@),
            position: self.position as nat,
            stage: self.stage,
        }
    }
}

impl<'a> Conversion<'a> {
    /// Whether all parts are well formed and no more chains were planned
    /// than the limit allows.
    spec fn sane(&self) -> bool {
        &&& self.graph.wf()
        &&& self.variations_in.wf()
        &&& self.variations_want.wf()
        &&& self.skip_edges.wf()
        &&& forall|i: int| 0 <= i < self.plan.len() ==> (#[trigger] self.plan[i]).wf()
        &&& self.attempts <= RETRY_LIMIT
    }

    /// The representation invariant: all parts are well formed, a revealer
    /// that is awaited is there, a callable that is awaited is in the plan,
    /// and no more chains were planned than the limit allows.
    pub closed spec fn wf(&self) -> bool {
        &&& self.sane()
        &&& self.stage == Stage::Revealing ==> self.revealed < self.revealers.len()
        &&& self.stage == Stage::Calling ==> self.position < self.plan.len()
        &&& self.stage == Stage::Calling ==> is_plan(self@.query(), self@.plan)
        &&& self.stage == Stage::Failed ==> self.attempts == RETRY_LIMIT || forall|
            c: Seq<EdgeView>,
        | !#[trigger] is_plan(self@.query(), c)
    }

    /// What follows from well-formedness about the view: no more chains
    /// were planned than the limit allows; a revealer that is awaited is
    /// there; the chain whose callables are called is a plan for what is
    /// asked, so that it holds no edge whose callable has failed; and a
    /// conversion that has failed before the limit was reached has no plan
    /// for what it asks.
    pub proof fn lemma_wf(&self)
        requires
            self.wf(),
        ensures
            self@.attempts <= RETRY_LIMIT,
            self@.stage == Stage::Revealing ==> self@.revealed < self@.revealers.len(),
            self@.stage == Stage::Calling ==> self@.position < self@.plan.len(),
            self@.stage == Stage::Calling ==> is_plan(self@.query(), self@.plan),
            self@.stage == Stage::Calling ==> forall|i: int|
                0 <= i < self@.plan.len() ==> !self@.excluded.contains(#[trigger] self@.plan[i]),
            self@.stage == Stage::Failed && self@.attempts < RETRY_LIMIT ==> forall|
                c: Seq<EdgeView>,
            | !#[trigger] is_plan(self@.query(), c),
    {
    }

    /// Plans a chain, where the limit allows it.
    fn plan(&mut self)
        requires
            old(self).sane(),
        ensures
            final(self).wf(),
            final(self)@ == old(self)@.planned(),
    {
        if self.attempts >= RETRY_LIMIT {
            self.stage = Stage::Failed;
            return ;
        }
        self.attempts = self.attempts + 1;
        let graph = self.graph;
        let found = graph.search(
            self.key_in,
            &self.variations_in,
            self.key_want,
            &self.variations_want,
            &self.skip_edges,
        );
        match found {
            None => {
                self.stage = Stage::Failed;
            },
            Some(chain) => {
                let mut plan: Vec<Edge> = Vec::new();
                let mut i: usize = 0;
                while i < chain.len()
                    invariant
                        i <= chain.len(),
                        plan.len() == i,
                        forall|k: int| 0 <= k < i ==> (#[trigger] plan[k]).wf(),
                        forall|k: int| 0 <= k < i ==> (#[trigger] plan[k])@ == chain[k]@,
                        forall|k: int| 0 <= k < chain.len() ==> (#[trigger] chain[k]).wf(),
                    decreases chain.len() - i,
                {
                    plan.push(chain[i].clone());
                    i += 1;
                }
                assert(plan@.map_values(|e: Edge| e@) =~= edge_views(chain@));
                self.plan = plan;
                self.position = 0;
                self.stage = Stage::Calling;
            },
        }
    }

    /// Ends the conversion where nothing is to do, and plans otherwise.
    fn resolve(&mut self)
        requires
            old(self).sane(),
        ensures
            final(self).wf(),
            final(self)@ == old(self)@.resolved(),
    {
        if self.key_in == self.key_want && self.variations_in.equals(&self.variations_want) {
            self.stage = Stage::Unchanged;
        } else {
            self.plan();
        }
    }

    /// Asks the next revealer where one is left, and goes on otherwise.
    fn ask_next(&mut self)
        requires
            old(self).sane(),
        ensures
            final(self).wf(),
            final(self)@ == old(self)@.revealing(),
    {
        if self.revealed < self.revealers.len() {
            self.stage = Stage::Revealing;
        } else {
            self.resolve();
        }
    }

    /// A conversion of a value of key `key_have` with the variations
    /// `variations_have` to the key `key_want` with the variations
    /// `variations_want`. The revealers that the registry holds for
    /// `key_have` are asked, unless `explicit` is set.
    pub fn new(
        registry: &'a Registry,
        key_have: Key,
        variations_have: Variations,
        key_want: Key,
        variations_want: Variations,
        explicit: bool,
    ) -> (r: Conversion<'a>)
        requires
            registry.wf(),
            variations_have.wf(),
            variations_want.wf(),
        ensures
            r.wf(),
            r@ == begin(
                registry@.edges,
                if explicit {
                    Seq::empty()
                } else {
                    registry@.revealers_of(key_have)
                },
                key_have,
                variations_have@,
                key_want,
                variations_want@,
            ),
    {
        let revealers = if explicit {
            Vec::new()
        } else {
            registry.revealers(key_have)
        };
        let mut r = Conversion {
            graph: registry.graph(),
            revealers,
            key_in: key_have,
            variations_in: variations_have,
            key_want,
            variations_want,
            revealed: 0,
            skip_edges: EdgeSet::new(),
            errors: Vec::new(),
            attempts: 0,
            plan: Vec::new(),
            position: 0,
            stage: Stage::Unchanged,
        };
        proof {
            assert(r@.errors =~= Seq::empty());
            assert(r@.plan =~= Seq::empty());
        }
        r.ask_next();
        r
    }

    /// Where the conversion stands.
    pub fn stage(&self) -> (r: Stage)
        ensures
            r == self@.stage,
    {
        self.stage
    }

    /// How many times a chain was planned.
    pub fn attempts(&self) -> (r: usize)
        requires
            self.wf(),
        ensures
            r == self@.attempts,
            r <= RETRY_LIMIT,
    {
        self.attempts
    }

    /// What the conversion awaits, or how it has ended.
    pub fn action(&self) -> (r: Action)
        requires
            self.wf(),
        ensures
            r@ == self@.awaits(),
    {
        match self.stage {
            Stage::Revealing => Action::Reveal(self.revealers[self.revealed]),
            Stage::Calling => Action::Call {
                payload: self.plan[self.position].data(),
                restart: self.position == 0,
            },
            Stage::Unchanged => Action::Unchanged,
            Stage::Converted => Action::Done,
            Stage::Failed => if self.errors.len() > 0 {
                Action::Fail(Failure::Conversion(report_of(&self.errors)))
            } else {
                Action::Fail(Failure::TypeMismatch)
            },
        }
    }

    /// Tells the conversion that the revealer it awaited has yielded
    /// `tokens`. Nothing changes where it awaited no revealer.
    pub fn revealed(&mut self, tokens: Vec<Variant>)
        requires
            old(self).wf(),
        ensures
            final(self).wf(),
            final(self)@ == old(self)@.on_revealed(tokens@),
    {
        if self.stage != Stage::Revealing {
            return ;
        }
        let more = Variations::from_vec(tokens);
        self.variations_in = self.variations_in.union(&more);
        self.revealed = self.revealed + 1;
        self.ask_next();
    }

    /// Tells the conversion that the call it awaited has succeeded. Nothing
    /// changes where it awaited no call.
    pub fn succeeded(&mut self)
        requires
            old(self).wf(),
        ensures
            final(self).wf(),
            final(self)@ == old(self)@.on_success(),
    {
        if self.stage != Stage::Calling {
            return ;
        }
        if self.position + 1 < self.plan.len() {
            self.position = self.position + 1;
        } else {
            self.stage = Stage::Converted;
        }
    }

    /// Tells the conversion that the call it awaited has failed with
    /// `message`. Nothing changes where it awaited no call.
    pub fn failed(&mut self, message: String)
        requires
            old(self).wf(),
        ensures
            final(self).wf(),
            final(self)@ == old(self)@.on_failure(message@),
    {
        if self.stage != Stage::Calling {
            return ;
        }
        let ghost before = self@;
        self.errors.push(message);
        let edge = self.plan[self.position].clone();
        self.skip_edges.insert(edge);
        proof {
            assert(self@.errors =~= before.errors.push(message@));
        }
        self.plan();
    }
}

} // verus!
