//! Markdown checklists to tasks: nested list items become nested tasks.
//! The Markdown text is tokenized by `pulldown-cmark`; turning the tokens
//! into tasks is done here.

use vstd::prelude::*;
use crate::text::{trim, trim_str};
use pulldown_cmark::{Event, Tag, TagEnd};

verus! {

/// The tokens of a Markdown document that an import looks at.
pub enum MdEvent {
    ListStart,
    ListEnd,
    ItemStart,
    ItemEnd,
    Text(String),
    Other,
}

/// The view of a token.
pub enum MdToken {
    ListStart,
    ListEnd,
    ItemStart,
    ItemEnd,
    Text(Seq<char>),
    Other,
}

impl View for MdEvent {
    type V = MdToken;

    open spec fn view(&self) -> MdToken {
        match self {
            MdEvent::ListStart => MdToken::ListStart,
            MdEvent::ListEnd => MdToken::ListEnd,
            MdEvent::ItemStart => MdToken::ItemStart,
            MdEvent::ItemEnd => MdToken::ItemEnd,
            MdEvent::Text(t) => MdToken::Text(t@),
            MdEvent::Other => MdToken::Other,
        }
    }
}

/// The token sequence that `pulldown-cmark` (task lists on) produces for
/// `text`: list and item starts and ends, text nodes, and everything else
/// as `Other`.
pub uninterp spec fn md_tokens(text: Seq<char>) -> Seq<MdToken>;

/// Tokenizes `text` with `pulldown_cmark::Parser::new_ext` and
/// `Options::ENABLE_TASKLISTS`.
#[verifier::external_body]
fn markdown_events(text: &str) -> (r: Vec<MdEvent>)
    ensures
        r@.map_values(|e: MdEvent| e@) == md_tokens(text@),
{
    let mut out = Vec::new();
    for ev in pulldown_cmark::Parser::new_ext(text, pulldown_cmark::Options::ENABLE_TASKLISTS) {
        out.push(match ev {
            Event::Start(Tag::List(_)) => MdEvent::ListStart,
            Event::End(TagEnd::List(_)) => MdEvent::ListEnd,
            Event::Start(Tag::Item) => MdEvent::ItemStart,
            Event::End(TagEnd::Item) => MdEvent::ItemEnd,
            Event::Text(t) => MdEvent::Text(t.to_string()),
            _ => MdEvent::Other,
        });
    }
    out
}

/// One task to insert: its title and, when it is nested, the position in
/// the plan of its parent.
pub struct PlannedTask {
    pub title: String,
    pub parent: Option<usize>,
}

/// The state of an import after some tokens: the parents of the open lists
/// (innermost last), the text of the item being read, whether an item is
/// being read, and the tasks planned so far.
pub struct MdState {
    pub stack: Seq<Option<usize>>,
    pub title: Seq<char>,
    pub pending: bool,
    pub plan: Seq<(Seq<char>, Option<usize>)>,
}

/// The state before the first token: one open level, the root.
pub open spec fn md_initial() -> MdState {
    MdState { stack: seq![None], title: seq![], pending: false, plan: seq![] }
}

/// The parent of the current level: the innermost open list's parent.
pub open spec fn current_parent(stack: Seq<Option<usize>>) -> Option<usize> {
    if stack.len() > 0 { stack.last() } else { None }
}

/// Ends the item being read: when its trimmed text is not empty it becomes
/// a task under the current parent, and its position is returned.
pub open spec fn md_flush(st: MdState) -> (MdState, Option<usize>) {
    if st.pending {
        let t = trim(st.title);
        if t.len() > 0 {
            (
                MdState {
                    stack: st.stack,
                    title: seq![],
                    pending: false,
                    plan: st.plan.push((t, current_parent(st.stack))),
                },
                Some(st.plan.len() as usize),
            )
        } else {
            (MdState { stack: st.stack, title: seq![], pending: false, plan: st.plan }, None)
        }
    } else {
        (st, None)
    }
}

/// The effect of one token.
pub open spec fn md_step(st: MdState, tok: MdToken) -> MdState {
    match tok {
        MdToken::ListStart => {
            let (s1, np) = md_flush(st);
            let top = if np is Some { np } else { current_parent(s1.stack) };
            MdState { stack: s1.stack.push(top), ..s1 }
        },
        MdToken::ListEnd => {
            if st.stack.len() > 0 {
                MdState { stack: st.stack.drop_last(), ..st }
            } else {
                st
            }
        },
        MdToken::ItemStart => {
            let s1 = md_flush(st).0;
            MdState { pending: true, ..s1 }
        },
        MdToken::Text(t) => {
            if st.pending {
                MdState { title: st.title + t, ..st }
            } else {
                st
            }
        },
        MdToken::ItemEnd => md_flush(st).0,
        MdToken::Other => st,
    }
}

/// The state after a sequence of tokens.
pub open spec fn md_run(toks: Seq<MdToken>) -> MdState
    decreases toks.len(),
{
    if toks.len() == 0 {
        md_initial()
    } else {
        md_step(md_run(toks.drop_last()), toks.last())
    }
}

/// The tasks that an import of `toks` inserts, in insertion order.
pub open spec fn md_plan(toks: Seq<MdToken>) -> Seq<(Seq<char>, Option<usize>)> {
    md_flush(md_run(toks)).0.plan
}

/// Every planned task has a non-empty title, and its parent, if any, is
/// planned before it.
pub open spec fn plan_wf(plan: Seq<(Seq<char>, Option<usize>)>) -> bool {
    forall|k: int|
        0 <= k < plan.len() ==> (#[trigger] plan[k]).0.len() > 0 && (plan[k].1 matches Some(p) ==> p < k)
}

spec fn state_wf(st: MdState) -> bool {
    &&& plan_wf(st.plan)
    &&& forall|j: int| 0 <= j < st.stack.len() ==> (#[trigger] st.stack[j] matches Some(p) ==> p < st.plan.len())
}

proof fn lemma_flush_wf(st: MdState)
    requires
        state_wf(st),
    ensures
        state_wf(md_flush(st).0),
        md_flush(st).1 matches Some(p) ==> p < md_flush(st).0.plan.len(),
        md_flush(st).0.plan.len() >= st.plan.len(),
{
    let r = md_flush(st).0;
    assert forall|k: int| 0 <= k < r.plan.len() implies (#[trigger] r.plan[k]).0.len() > 0 && (r.plan[k].1 matches Some(p) ==> p < k) by {
        if k < st.plan.len() {
            assert(r.plan[k] == st.plan[k]);
        }
    }
}

proof fn lemma_run_wf(toks: Seq<MdToken>)
    ensures
        state_wf(md_run(toks)),
    decreases toks.len(),
{
    if toks.len() > 0 {
        lemma_run_wf(toks.drop_last());
        let st = md_run(toks.drop_last());
        lemma_flush_wf(st);
        let r = md_run(toks);
        match toks.last() {
            MdToken::ListStart => {
                let s1 = md_flush(st).0;
                assert forall|j: int| 0 <= j < r.stack.len() implies (#[trigger] r.stack[j] matches Some(p) ==> p < r.plan.len()) by {
                    if j < s1.stack.len() {
                        assert(r.stack[j] == s1.stack[j]);
                    }
                }
            },
            MdToken::ListEnd => {
                assert forall|j: int| 0 <= j < r.stack.len() implies (#[trigger] r.stack[j] matches Some(p) ==> p < r.plan.len()) by {
                    assert(r.stack[j] == st.stack[j]);
                }
            },
            _ => {},
        }
    }
}

/// Law of the Markdown import: every planned task has a non-empty title,
/// and a nested task's parent is planned (and so inserted) before it.
pub proof fn lemma_plan_parents_precede(toks: Seq<MdToken>)
    ensures
        plan_wf(md_plan(toks)),
{
    lemma_run_wf(toks);
    lemma_flush_wf(md_run(toks));
}

/// The text of the text tokens of `toks`, in order.
pub open spec fn texts_of(toks: Seq<MdToken>) -> Seq<char>
    decreases toks.len(),
{
    if toks.len() == 0 {
        seq![]
    } else {
        texts_of(toks.drop_last()) + match toks.last() {
            MdToken::Text(t) => t,
            _ => seq![],
        }
    }
}

/// Tokens inside an item that are neither list nor item boundaries: text,
/// and what the import does not look at (emphasis, code, links, ...).
pub open spec fn inline_only(toks: Seq<MdToken>) -> bool {
    forall|k: int| 0 <= k < toks.len() ==> (#[trigger] toks[k] is Text || toks[k] is Other)
}

/// Outside an item no text is gathered.
proof fn lemma_idle_title_empty(toks: Seq<MdToken>)
    ensures
        !md_run(toks).pending ==> md_run(toks).title =~= Seq::<char>::empty(),
        md_flush(md_run(toks)).0.title =~= Seq::<char>::empty(),
    decreases toks.len(),
{
    if toks.len() > 0 {
        lemma_idle_title_empty(toks.drop_last());
    }
}

proof fn lemma_inline_gathers(pre: Seq<MdToken>, body: Seq<MdToken>)
    requires
        md_run(pre).pending,
        inline_only(body),
    ensures
        md_run(pre + body) == (MdState { title: md_run(pre).title + texts_of(body), ..md_run(pre) }),
    decreases body.len(),
{
    let st = md_run(pre);
    if body.len() == 0 {
        assert(pre + body =~= pre);
        assert(st.title + texts_of(body) =~= st.title);
    } else {
        let b = body.drop_last();
        assert(inline_only(b)) by {
            assert forall|k: int| 0 <= k < b.len() implies (#[trigger] b[k] is Text || b[k] is Other) by {
                assert(b[k] == body[k]);
            }
        }
        lemma_inline_gathers(pre, b);
        assert((pre + body).drop_last() =~= pre + b);
        assert((pre + body).last() == body.last());
        assert(body[body.len() - 1] == body.last());
        match body.last() {
            MdToken::Text(t) => {
                assert(st.title + texts_of(b) + t =~= st.title + (texts_of(b) + t));
            },
            _ => {
                assert(texts_of(body) =~= texts_of(b));
            },
        }
    }
}

/// Law of the Markdown import of one item: an item opened after tokens
/// `pre`, holding only text and inline markup (`body`), and then closed,
/// plans exactly one task when the trimmed text of all its text tokens,
/// joined in order, is not empty: that text is its title, and its parent
/// is the current level's parent; otherwise it plans nothing. No other
/// planned task changes.
pub proof fn lemma_item_title_gathers_all_text(pre: Seq<MdToken>, body: Seq<MdToken>)
    requires
        inline_only(body),
    ensures
        ({
            let before = md_flush(md_run(pre)).0;
            let after = md_run(pre + seq![MdToken::ItemStart] + body + seq![MdToken::ItemEnd]);
            let t = trim(texts_of(body));
            &&& t.len() > 0 ==> after.plan == before.plan.push((t, current_parent(before.stack)))
            &&& t.len() == 0 ==> after.plan == before.plan
            &&& after.stack == before.stack
            &&& !after.pending
        }),
{
    let pre1 = pre + seq![MdToken::ItemStart];
    assert(pre1.drop_last() =~= pre);
    assert(pre1.last() == MdToken::ItemStart);
    lemma_inline_gathers(pre1, body);
    let all = pre1 + body + seq![MdToken::ItemEnd];
    assert(all.drop_last() =~= pre1 + body);
    lemma_idle_title_empty(pre);
    assert(md_run(pre1).title =~= Seq::<char>::empty());
    assert(Seq::<char>::empty() + texts_of(body) =~= texts_of(body));
}

/// The view of a planned task.
pub open spec fn planned_view(p: PlannedTask) -> (Seq<char>, Option<usize>) {
    (p.title@, p.parent)
}

struct Importer {
    stack: Vec<Option<usize>>,
    title: String,
    pending: bool,
    plan: Vec<PlannedTask>,
}

impl Importer {
    spec fn state(&self) -> MdState {
        MdState {
            stack: self.stack@,
            title: self.title@,
            pending: self.pending,
            plan: self.plan@.map_values(|p: PlannedTask| planned_view(p)),
        }
    }

    fn current_parent(&self) -> (r: Option<usize>)
        ensures
            r == current_parent(self.stack@),
    {
        if self.stack.len() > 0 {
            self.stack[self.stack.len() - 1]
        } else {
            None
        }
    }

    fn flush(&mut self) -> (r: Option<usize>)
        ensures
            (final(self).state(), r) == md_flush(old(self).state()),
    {
        if self.pending {
            let t = trim_str(self.title.as_str());
            if t.unicode_len() > 0 {
                let parent = self.current_parent();
                let id = self.plan.len();
                let ghost before = self.state();
                self.plan.push(PlannedTask { title: t, parent });
                self.title = String::new();
                self.pending = false;
                assert(self.state().plan =~= before.plan.push((trim(before.title), parent)));
                assert(self.state() =~= md_flush(before).0);
                Some(id)
            } else {
                self.title = String::new();
                self.pending = false;
                assert(self.state() =~= md_flush(old(self).state()).0);
                None
            }
        } else {
            None
        }
    }

    fn step(&mut self, ev: &MdEvent)
        ensures
            final(self).state() == md_step(old(self).state(), ev@),
    {
        match ev {
            MdEvent::ListStart => {
                let np = self.flush();
                let top = if np.is_some() { np } else { self.current_parent() };
                self.stack.push(top);
            },
            MdEvent::ListEnd => {
                self.stack.pop();
            },
            MdEvent::ItemStart => {
                self.flush();
                self.pending = true;
            },
            MdEvent::Text(t) => {
                if self.pending {
                    self.title.append(t.as_str());
                }
            },
            MdEvent::ItemEnd => {
                self.flush();
            },
            MdEvent::Other => {},
        }
        assert(self.state() =~= md_step(old(self).state(), ev@));
    }
}

/// The tasks that importing a token sequence inserts: each list item with a
/// non-empty (trimmed) text becomes a task, nested under the item whose
/// nested list contains it.
pub fn plan_of_events(events: &Vec<MdEvent>) -> (r: Vec<PlannedTask>)
    ensures
        r@.map_values(|p: PlannedTask| planned_view(p)) == md_plan(events@.map_values(|e: MdEvent| e@)),
{
    let ghost toks = events@.map_values(|e: MdEvent| e@);
    let mut imp = Importer { stack: Vec::new(), title: String::new(), pending: false, plan: Vec::new() };
    imp.stack.push(None);
    assert(imp.stack@ =~= seq![None]);
    assert(imp.plan@.map_values(|p: PlannedTask| planned_view(p)) =~= Seq::<(Seq<char>, Option<usize>)>::empty());
    assert(imp.state() =~= md_initial());
    let n = events.len();
    let mut i: usize = 0;
    while i < n
        invariant
            n == events@.len(),
            toks == events@.map_values(|e: MdEvent| e@),
            i <= n,
            imp.state() == md_run(toks.take(i as int)),
        decreases n - i,
    {
        imp.step(&events[i]);
        i = i + 1;
        assert(toks.take(i as int).drop_last() =~= toks.take(i - 1));
    }
    assert(toks.take(n as int) =~= toks);
    imp.flush();
    imp.plan
}

/// The parent id to insert planned task `k` with, given the ids that the
/// table gave to the tasks inserted before it: the id of the planned parent,
/// or none for a top-level task (or a parent that has no id yet).
pub fn planned_parent_id(plan: &Vec<PlannedTask>, k: usize, inserted: &Vec<i32>) -> (r: Option<i32>)
    requires
        k < plan@.len(),
    ensures
        r == match plan@[k as int].parent {
            Some(p) => if p < inserted@.len() { Some(inserted@[p as int]) } else { None },
            None => None,
        },
{
    match plan[k].parent {
        Some(p) => if p < inserted.len() { Some(inserted[p]) } else { None },
        None => None,
    }
}

/// The tasks that importing the Markdown `text` inserts.
pub fn markdown_import_plan(text: &str) -> (r: Vec<PlannedTask>)
    ensures
        r@.map_values(|p: PlannedTask| planned_view(p)) == md_plan(md_tokens(text@)),
{
    let events = markdown_events(text);
    plan_of_events(&events)
}

} // verus!
