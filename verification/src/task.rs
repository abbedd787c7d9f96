//! The task tree: one to-do entry plus its ordered subtasks.

use vstd::prelude::*;
use vstd::string::StringExecFns;

verus! {

/// One task: a title, free-text details, a completion flag, and an ordered
/// list of subtasks that the task owns outright.
pub struct TodoItem {
    pub title: String,
    pub details: String,
    pub completed: bool,
    pub children: Vec<TodoItem>,
}

/// The mathematical model of a task: the same shape over `Seq`.
#[verifier::ext_equal]
pub struct NodeView {
    pub title: Seq<char>,
    pub details: Seq<char>,
    pub completed: bool,
    pub children: Seq<NodeView>,
}

/// The model of one task: its texts as character sequences, its flag, and
/// the models of its subtasks in order.
pub open spec fn node_view(t: TodoItem) -> NodeView
    decreases t,
    via node_view_dec
{
    NodeView {
        title: t.title@,
        details: t.details@,
        completed: t.completed,
        children: node_views(t.children@),
    }
}

/// The models of a sequence of tasks, in order.
pub open spec fn node_views(s: Seq<TodoItem>) -> Seq<NodeView>
    decreases s,
{
    if s.len() == 0 {
        Seq::<NodeView>::empty()
    } else {
        seq![node_view(s[0])] + node_views(s.drop_first())
    }
}

#[via_fn]
proof fn node_view_dec(t: TodoItem) {
    assert(decreases_to!(t => t.children));
    assert(decreases_to!(t.children => t.children@));
}

impl View for TodoItem {
    type V = NodeView;

    open spec fn view(&self) -> NodeView {
        node_view(*self)
    }
}

/// `node_views` is the pointwise map of `node_view`.
pub proof fn lemma_node_views(s: Seq<TodoItem>)
    ensures
        node_views(s).len() == s.len(),
        forall|i: int| 0 <= i < s.len() ==> node_views(s)[i] == node_view(#[trigger] s[i]),
    decreases s.len(),
{
    if s.len() > 0 {
        lemma_node_views(s.drop_first());
        assert forall|i: int| 0 <= i < s.len() implies node_views(s)[i] == node_view(
            #[trigger] s[i],
        ) by {
            if i > 0 {
                assert(node_views(s)[i] == node_views(s.drop_first())[i - 1]);
                assert(s.drop_first()[i - 1] == s[i]);
            }
        }
    }
}

/// The model of a whole forest: the models of its roots, in order.
pub open spec fn forest_view(f: Seq<TodoItem>) -> Seq<NodeView> {
    node_views(f)
}

/// Every node of the subtree rooted at `t`, `t` itself included, is completed.
pub open spec fn all_completed(t: NodeView) -> bool
    decreases t,
{
    &&& t.completed
    &&& forall|i: int| 0 <= i < t.children.len() ==> all_completed(#[trigger] t.children[i])
}

/// The subtree rooted at `t` with every node marked completed; titles,
/// details and the shape of the tree are untouched.
pub open spec fn complete_view(t: NodeView) -> NodeView
    decreases t,
{
    NodeView { completed: true, children: complete_views(t.children), ..t }
}

/// `complete_view`, applied to each tree of a sequence.
pub open spec fn complete_views(s: Seq<NodeView>) -> Seq<NodeView>
    decreases s,
{
    if s.len() == 0 {
        Seq::<NodeView>::empty()
    } else {
        seq![complete_view(s[0])] + complete_views(s.drop_first())
    }
}

/// `complete_views` is the pointwise map of `complete_view`.
pub proof fn lemma_complete_views(s: Seq<NodeView>)
    ensures
        complete_views(s).len() == s.len(),
        forall|i: int| 0 <= i < s.len() ==> complete_views(s)[i] == complete_view(
            #[trigger] s[i],
        ),
    decreases s.len(),
{
    if s.len() > 0 {
        lemma_complete_views(s.drop_first());
        assert forall|i: int| 0 <= i < s.len() implies complete_views(s)[i] == complete_view(
            #[trigger] s[i],
        ) by {
            if i > 0 {
                assert(complete_views(s)[i] == complete_views(s.drop_first())[i - 1]);
                assert(s.drop_first()[i - 1] == s[i]);
            }
        }
    }
}

impl TodoItem {
    /// A fresh leaf task: the given title, empty details, not completed,
    /// no subtasks.
    pub fn new(title: String) -> (t: TodoItem)
        ensures
            t@ == (NodeView {
                title: title@,
                details: Seq::<char>::empty(),
                completed: false,
                children: Seq::<NodeView>::empty(),
            }),
    {
        let t = TodoItem { title, details: String::new(), completed: false, children: Vec::new() };
        proof {
            assert(t.children@.len() == 0);
            assert(t@ =~= (NodeView {
                title: t.title@,
                details: Seq::<char>::empty(),
                completed: false,
                children: Seq::<NodeView>::empty(),
            }));
        }
        t
    }

    /// Marks the task and, recursively, every subtask as completed.
    pub fn complete(&mut self)
        ensures
            final(self)@ == complete_view(old(self)@),
        decreases *old(self),
    {
        self.completed = true;
        let n = self.children.len();
        let mut i: usize = 0;
        while i < n
            invariant
                n == self.children@.len(),
                n == old(self).children@.len(),
                i <= n,
                self.title == old(self).title,
                self.details == old(self).details,
                self.completed,
                forall|j: int| 0 <= j < i ==> node_view(self.children@[j]) == complete_view(
                    node_view(#[trigger] old(self).children@[j])),
                forall|j: int| i <= j < n ==> self.children@[j] == old(self).children@[j],
            decreases n - i,
        {
            proof {
                assert(self.children@[i as int] == old(self).children@[i as int]);
                assert(decreases_to!(*old(self) => old(self).children));
                assert(decreases_to!(old(self).children => old(self).children@));
                assert(decreases_to!(old(self).children@ => old(self).children@[i as int]));
            }
            self.children[i].complete();
            i += 1;
        }
        proof {
            let oldv = old(self)@;
            lemma_node_views(self.children@);
            lemma_node_views(old(self).children@);
            lemma_complete_views(oldv.children);
            assert forall|j: int| 0 <= j < n implies self@.children[j] == complete_view(
                oldv,
            ).children[j] by {
                assert(self@.children[j] == node_view(self.children@[j]));
                assert(oldv.children[j] == node_view(old(self).children@[j]));
                assert(complete_views(oldv.children)[j] == complete_view(oldv.children[j]));
            }
            assert(self@.children.len() == n);
            assert(complete_view(oldv).children.len() == n);
            assert(self@.children =~= complete_view(oldv).children);
            assert(self@ =~= complete_view(oldv));
        }
    }

    /// Appends the task's rendered text at the given depth to `f`:
    /// the checkbox line, then the subtasks, capped at depth 5.
    pub fn fmt_with_indentation(&self, f: &mut String, recursion_level: usize)
        ensures
            final(f)@ == old(f)@ + render_node(self@, recursion_level as nat),
        decreases *self,
    {
        let mut k: usize = 0;
        while k < recursion_level
            invariant
                k <= recursion_level,
                f@ == old(f)@ + indent_spec(k as nat),
            decreases recursion_level - k,
        {
            f.append("    ");
            proof {
                reveal_strlit("    ");
                assert("    "@ =~= seq![' ', ' ', ' ', ' ']);
                assert(f@ =~= old(f)@ + indent_spec((k + 1) as nat));
            }
            k += 1;
        }
        if self.completed {
            f.append("[x] ");
            proof {
                reveal_strlit("[x] ");
                assert("[x] "@ =~= checkbox_spec(true));
            }
        } else {
            f.append("[ ] ");
            proof {
                reveal_strlit("[ ] ");
                assert("[ ] "@ =~= checkbox_spec(false));
            }
        }
        f.append(self.title.as_str());
        f.append("\n");
        proof {
            reveal_strlit("\n");
            assert("\n"@ =~= seq!['\n']);
        }
        let ghost base = f@;
        proof {
            assert(base =~= old(f)@ + indent_spec(recursion_level as nat) + checkbox_spec(
                self.completed,
            ) + self.title@ + seq!['\n']);
        }
        if recursion_level < 5 {
            let ghost cs = self@.children;
            proof {
                lemma_node_views(self.children@);
            }
            let n = self.children.len();
            let mut i: usize = 0;
            while i < n
                invariant
                    n == self.children@.len(),
                    i <= n,
                    cs == self@.children,
                    cs.len() == n,
                    recursion_level < 5,
                    forall|j: int| 0 <= j < n ==> cs[j] == node_view(#[trigger] self.children@[j]),
                    f@ == base + render_nodes(cs.take(i as int), recursion_level as nat + 1),
                decreases n - i,
            {
                proof {
                    assert(decreases_to!(*self => self.children));
                    assert(decreases_to!(self.children => self.children@));
                    assert(decreases_to!(self.children@ => self.children@[i as int]));
                }
                self.children[i].fmt_with_indentation(f, recursion_level + 1);
                proof {
                    assert(cs.take(i + 1) =~= cs.take(i as int).push(cs[i as int]));
                    lemma_render_nodes_snoc(
                        cs.take(i as int),
                        cs[i as int],
                        recursion_level as nat + 1,
                    );
                    assert(f@ =~= base + render_nodes(cs.take(i + 1), recursion_level as nat + 1));
                }
                i += 1;
            }
            proof {
                assert(cs.take(n as int) =~= cs);
                assert(f@ =~= old(f)@ + render_node(self@, recursion_level as nat));
            }
        } else {
            proof {
                assert(f@ =~= old(f)@ + render_node(self@, recursion_level as nat));
            }
        }
    }

    /// The task's rendered text as a root: one checkbox line per visible node.
    pub fn render(&self) -> (r: String)
        ensures
            r@ == render_node(self@, 0),
    {
        let mut s = String::new();
        self.fmt_with_indentation(&mut s, 0);
        proof {
            assert(s@ =~= render_node(self@, 0));
        }
        s
    }
}

/// Four spaces for each indentation level.
pub open spec fn indent_spec(level: nat) -> Seq<char>
    decreases level,
{
    if level == 0 {
        Seq::<char>::empty()
    } else {
        indent_spec((level - 1) as nat) + seq![' ', ' ', ' ', ' ']
    }
}

/// The checkbox prefix of a rendered task line.
pub open spec fn checkbox_spec(completed: bool) -> Seq<char> {
    if completed {
        seq!['[', 'x', ']', ' ']
    } else {
        seq!['[', ' ', ']', ' ']
    }
}

/// The text rendered for one task at the given depth: its indented checkbox
/// line, then its subtasks one level deeper. Subtasks of a task at depth 5
/// or beyond are omitted from the output (they stay in the data).
pub open spec fn render_node(t: NodeView, level: nat) -> Seq<char>
    decreases t,
{
    indent_spec(level) + checkbox_spec(t.completed) + t.title + seq!['\n'] + (if level < 5 {
        render_nodes(t.children, level + 1)
    } else {
        Seq::<char>::empty()
    })
}

/// The text rendered for a sequence of sibling tasks, in order.
pub open spec fn render_nodes(s: Seq<NodeView>, level: nat) -> Seq<char>
    decreases s,
{
    if s.len() == 0 {
        Seq::<char>::empty()
    } else {
        render_node(s[0], level) + render_nodes(s.drop_first(), level)
    }
}

/// Rendering siblings one after another appends their renderings.
pub proof fn lemma_render_nodes_snoc(s: Seq<NodeView>, x: NodeView, level: nat)
    ensures
        render_nodes(s.push(x), level) == render_nodes(s, level) + render_node(x, level),
    decreases s.len(),
{
    if s.len() == 0 {
        assert(s.push(x)[0] == x);
        assert(s.push(x).drop_first() =~= Seq::<NodeView>::empty());
        assert(render_nodes(Seq::<NodeView>::empty(), level) == Seq::<char>::empty());
        assert(render_nodes(s.push(x), level) == render_node(x, level) + Seq::<char>::empty());
        assert(render_nodes(s.push(x), level) =~= render_nodes(s, level) + render_node(x, level));
    } else {
        assert(s.push(x)[0] == s[0]);
        assert(s.push(x).drop_first() =~= s.drop_first().push(x));
        lemma_render_nodes_snoc(s.drop_first(), x, level);
        assert(render_nodes(s.push(x), level) == render_node(s[0], level) + render_nodes(
            s.drop_first().push(x),
            level,
        ));
        assert(render_nodes(s.push(x), level) == render_node(s[0], level) + (render_nodes(
            s.drop_first(),
            level,
        ) + render_node(x, level)));
        assert(render_nodes(s.push(x), level) =~= render_nodes(s, level) + render_node(x, level));
    }
}

/// At depth 5 or beyond a task renders as its own line alone: whatever its
/// subtasks are, they produce no output.
pub proof fn lemma_render_depth_cap(t: NodeView, level: nat)
    requires
        5 <= level,
    ensures
        render_node(t, level) == indent_spec(level) + checkbox_spec(t.completed) + t.title + seq![
            '\n',
        ],
{
    assert(render_node(t, level) =~= indent_spec(level) + checkbox_spec(t.completed) + t.title
        + seq!['\n']);
}

/// Completing an already completed subtree changes nothing: re-application
/// is harmless.
pub proof fn lemma_complete_idempotent(t: NodeView)
    ensures
        complete_view(complete_view(t)) == complete_view(t),
    decreases t,
{
    let c = complete_view(t);
    lemma_complete_views(t.children);
    lemma_complete_views(c.children);
    assert forall|j: int| 0 <= j < c.children.len() implies complete_views(c.children)[j]
        == c.children[j] by {
        lemma_complete_idempotent(t.children[j]);
        assert(c.children[j] == complete_view(t.children[j]));
        assert(complete_views(c.children)[j] == complete_view(c.children[j]));
    }
    assert(complete_views(c.children) =~= c.children);
    assert(complete_view(c) =~= c);
}

/// Completing a subtree leaves every node of it completed, and changes no
/// title, no details, and no shape: child counts agree level by level.
pub proof fn lemma_complete_cascade(t: NodeView)
    ensures
        all_completed(complete_view(t)),
        complete_view(t).title == t.title,
        complete_view(t).details == t.details,
        complete_view(t).children.len() == t.children.len(),
    decreases t,
{
    let c = complete_view(t);
    lemma_complete_views(t.children);
    assert forall|i: int| 0 <= i < c.children.len() implies all_completed(
        #[trigger] c.children[i],
    ) by {
        lemma_complete_cascade(t.children[i]);
    }
}

} // verus!
