use std::io::Write;

use vstd::prelude::*;

verus! {

use crate::strutil::{str_eq, u64_to_string, spec_digits};
use vstd::string::StringExecFns;

/// What can go wrong while reporting results.
#[derive(Debug)]
pub enum ResultsError {
    /// Writing to the terminal failed; carries the report.
    TerminalError(String),
}

/// The outcome a result node is in.
#[derive(Clone, Debug)]
pub enum State {
    /// The work behind the node has not started.
    NotRun,
    /// The work behind the node is under way.
    Running,
    /// The work behind the node succeeded.
    Passed,
    /// The work behind the node failed, with the reason.
    Failed(String),
}

/// The mathematical shape of a state.
pub enum StateV {
    NotRun,
    Running,
    Passed,
    Failed(Seq<char>),
}

impl View for State {
    type V = StateV;

    open spec fn view(&self) -> StateV {
        match self {
            State::NotRun => StateV::NotRun,
            State::Running => StateV::Running,
            State::Passed => StateV::Passed,
            State::Failed(m) => StateV::Failed(m@),
        }
    }
}

impl Default for State {
    fn default() -> (r: Self)
        ensures
            r is NotRun,
    {
        State::NotRun
    }
}

/// A named node of the result tree: its state, how long its work
/// took, and its ordered children.
#[verifier::ext_equal]
pub struct Results {
    pub name: String,
    pub state: State,
    pub duration_ns: u64,
    pub children: Vec<Results>,
}

/// The mathematical shape of a result tree.
#[verifier::ext_equal]
pub struct RNode {
    pub name: Seq<char>,
    pub state: StateV,
    pub duration_ns: u64,
    pub children: Seq<RNode>,
}

pub open spec fn rview(r: Results) -> RNode
    decreases r,
    via rview_dec
{
    RNode {
        name: r.name@,
        state: r.state@,
        duration_ns: r.duration_ns,
        children: Seq::new(
            r.children@.len(),
            |i: int|
                if 0 <= i < r.children@.len() {
                    rview(r.children@[i])
                } else {
                    RNode {
                        name: Seq::empty(),
                        state: StateV::NotRun,
                        duration_ns: 0,
                        children: Seq::empty(),
                    }
                },
        ),
    }
}

#[via_fn]
proof fn rview_dec(r: Results) {
    assert forall|i: int| 0 <= i < r.children@.len() implies decreases_to!(r => r.children@[i]) by {
        assert(decreases_to!(r => r.children));
        assert(decreases_to!(r.children => r.children@));
        assert(decreases_to!(r.children@ => r.children@[i]));
    }
}

impl View for Results {
    type V = RNode;

    open spec fn view(&self) -> RNode {
        rview(*self)
    }
}

/// How many nodes a tree holds, itself included.
pub open spec fn rcount(n: RNode) -> nat
    decreases n, 1int,
{
    1 + rcount_seq(n.children)
}

pub open spec fn rcount_seq(s: Seq<RNode>) -> nat
    decreases s, 0int,
{
    if s.len() == 0 {
        0
    } else {
        rcount(s[0]) + rcount_seq(s.drop_first())
    }
}

proof fn lemma_rcount_seq_append(a: Seq<RNode>, b: Seq<RNode>)
    ensures
        rcount_seq(a + b) == rcount_seq(a) + rcount_seq(b),
    decreases a.len(),
{
    if a.len() == 0 {
        assert(a + b =~= b);
    } else {
        assert((a + b).drop_first() =~= a.drop_first() + b);
        lemma_rcount_seq_append(a.drop_first(), b);
    }
}

proof fn lemma_rcount_seq_push(a: Seq<RNode>, x: RNode)
    ensures
        rcount_seq(a.push(x)) == rcount_seq(a) + rcount(x),
{
    assert(a.push(x) =~= a + seq![x]);
    lemma_rcount_seq_append(a, seq![x]);
    assert(seq![x].drop_first() =~= Seq::<RNode>::empty());
    assert(seq![x][0] == x);
    assert(rcount_seq(seq![x].drop_first()) == 0);
    assert(rcount_seq(seq![x]) == rcount(x));
}

/// The first child index at or after `i` whose name matches, else the length.
pub open spec fn first_child(s: Seq<RNode>, nm: Seq<char>, i: int) -> int
    decreases s.len() - i,
{
    if 0 <= i && i < s.len() {
        if s[i].name == nm {
            i
        } else {
            first_child(s, nm, i + 1)
        }
    } else {
        s.len() as int
    }
}

/// Whether a name path leads to an existing node, so that an update
/// along it finds every child it looks for.
pub open spec fn path_valid(n: RNode, ns: Seq<Seq<char>>) -> bool
    decreases ns.len(),
{
    if ns.len() <= 1 {
        true
    } else if n.name != ns[0] {
        true
    } else {
        let i = first_child(n.children, ns[1], 0);
        &&& i < n.children.len()
        &&& path_valid(n.children[i], ns.drop_first())
    }
}

/// The tree after an update along a name path: the node the path ends
/// on takes the given state and duration; everything else is kept.
pub open spec fn spec_update(n: RNode, ns: Seq<Seq<char>>, st: StateV, dur: u64) -> RNode
    decreases ns.len(),
{
    if ns.len() == 1 && n.name == ns[0] {
        RNode { name: n.name, state: st, duration_ns: dur, children: n.children }
    } else if ns.len() > 1 && n.name == ns[0] {
        let i = first_child(n.children, ns[1], 0);
        if i < n.children.len() {
            RNode {
                name: n.name,
                state: n.state,
                duration_ns: n.duration_ns,
                children: n.children.update(
                    i,
                    spec_update(n.children[i], ns.drop_first(), st, dur),
                ),
            }
        } else {
            n
        }
    } else {
        n
    }
}

pub open spec fn names_view(ns: Seq<String>) -> Seq<Seq<char>> {
    Seq::new(ns.len(), |i: int| ns[i]@)
}

impl Results {
    /// A fresh node that has not run, with no children.
    pub fn new(name: &str) -> (r: Self)
        ensures
            r@.name == name@,
            r@.state is NotRun,
            r@.duration_ns == 0,
            r@.children =~= Seq::<RNode>::empty(),
    {
        let r = Results {
            name: String::from_str(name),
            state: State::NotRun,
            duration_ns: 0,
            children: Vec::new(),
        };
        proof {
            assert(r@.children =~= Seq::<RNode>::empty());
        }
        r
    }

    /// Adds a fresh child of that name.
    pub fn add(&mut self, name: &str)
        ensures
            final(self)@.name == old(self)@.name,
            final(self)@.state == old(self)@.state,
            final(self)@.duration_ns == old(self)@.duration_ns,
            final(self)@.children =~= old(self)@.children.push(
                RNode {
                    name: name@,
                    state: StateV::NotRun,
                    duration_ns: 0,
                    children: Seq::empty(),
                },
            ),
    {
        let child = Results::new(name);
        self.add_results(child);
    }

    /// Adds a finished or pending subtree as the last child.
    pub fn add_results(&mut self, results: Results)
        ensures
            final(self)@.name == old(self)@.name,
            final(self)@.state == old(self)@.state,
            final(self)@.duration_ns == old(self)@.duration_ns,
            final(self)@.children =~= old(self)@.children.push(results@),
    {
        self.children.push(results);
        proof {
            assert(final(self)@.children =~= old(self)@.children.push(results@));
        }
    }

    pub fn is_empty(&self) -> (r: bool)
        ensures
            r == (self@.children.len() == 0),
    {
        self.children.is_empty()
    }

    /// How many nodes the tree holds, itself included.
    pub fn len(&self) -> (r: usize)
        requires
            rcount(self@) <= usize::MAX,
        ensures
            r == rcount(self@),
        decreases rcount(self@),
    {
        let ghost me = self@;
        let mut n: usize = 1;
        let mut i: usize = 0;
        proof {
            assert(me.children.subrange(0, 0) =~= Seq::<RNode>::empty());
        }
        while i < self.children.len()
            invariant
                i <= self.children@.len(),
                me == self@,
                rcount(me) <= usize::MAX,
                n == 1 + rcount_seq(me.children.subrange(0, i as int)),
            decreases self.children@.len() - i,
        {
            proof {
                assert(me.children[i as int] == self.children@[i as int]@);
                assert(decreases_to!(me => me.children));
                lemma_rcount_split(me, i as int);
            }
            let c = self.children[i].len();
            n = n + c;
            proof {
                lemma_rcount_seq_push(me.children.subrange(0, i as int), me.children[i as int]);
                assert(me.children.subrange(0, i as int).push(me.children[i as int])
                    =~= me.children.subrange(0, i + 1));
            }
            i = i + 1;
        }
        proof {
            assert(me.children.subrange(0, me.children.len() as int) =~= me.children);
        }
        n
    }

    /// Updates the node a name path leads to: the path names this
    /// node, then a child at each level; the named node takes the
    /// state and duration.
    pub fn update(&mut self, names: &[String], state: State, duration_ns: u64)
        requires
            path_valid(old(self)@, names_view(names@)),
        ensures
            final(self)@ == spec_update(old(self)@, names_view(names@), state@, duration_ns),
    {
        proof {
            assert(names_view(names@).skip(0) =~= names_view(names@));
        }
        self.update_at(names, 0, state, duration_ns);
    }

    fn update_at(&mut self, names: &[String], k: usize, state: State, duration_ns: u64)
        requires
            k <= names@.len(),
            path_valid(old(self)@, names_view(names@).skip(k as int)),
        ensures
            final(self)@ == spec_update(
                old(self)@,
                names_view(names@).skip(k as int),
                state@,
                duration_ns,
            ),
        decreases names@.len() - k,
    {
        let ghost me = old(self)@;
        let ghost ns = names_view(names@).skip(k as int);
        let n = names.len();
        if k < n && str_eq(self.name.as_str(), names[k].as_str()) {
            if k + 1 == n {
                self.duration_ns = duration_ns;
                self.state = state;
                proof {
                    assert(self@.children =~= me.children);
                    assert(self@ =~= spec_update(me, ns, state@, duration_ns));
                }
            } else {
                // find the child the next name selects
                let ghost fc = first_child(me.children, ns[1], 0);
                let mut i: usize = 0;
                while i < self.children.len() && !str_eq(
                    self.children[i].name.as_str(),
                    names[k + 1].as_str(),
                )
                    invariant
                        i <= me.children.len(),
                        me == self@,
                        n == names@.len(),
                        k < n,
                        k + 1 < names@.len(),
                        ns == names_view(names@).skip(k as int),
                        ns[1] == names@[k + 1]@,
                        first_child(me.children, ns[1], 0) == first_child(
                            me.children,
                            ns[1],
                            i as int,
                        ),
                        path_valid(me, ns),
                        me.name == ns[0],
                    decreases me.children.len() - i,
                {
                    proof {
                        assert(me.children[i as int] == self.children@[i as int]@);
                    }
                    i = i + 1;
                }
                proof {
                    assert(me.children[i as int] == self.children@[i as int]@);
                    assert(i as int == fc);
                    assert(ns.drop_first() =~= names_view(names@).skip(k + 1));
                }
                self.children[i].update_at(names, k + 1, state, duration_ns);
                proof {
                    assert(self@.children =~= me.children.update(
                        fc,
                        spec_update(me.children[fc], ns.drop_first(), state@, duration_ns),
                    ));
                    assert(self@ =~= spec_update(me, ns, state@, duration_ns));
                }
            }
        } else {
            proof {
                assert(self@ =~= spec_update(me, ns, state@, duration_ns));
            }
        }
    }
}

proof fn lemma_rcount_split(n: RNode, i: int)
    requires
        0 <= i < n.children.len(),
    ensures
        rcount(n) >= 1 + rcount_seq(n.children.subrange(0, i)) + rcount(n.children[i]),
        rcount(n.children[i]) >= 1,
        rcount_seq(n.children.subrange(0, i)) >= 0,
{
    lemma_rcount_at_least_one(n.children[i]);
    assert(n.children =~= n.children.subrange(0, i) + (n.children.subrange(
        i,
        n.children.len() as int,
    )));
    lemma_rcount_seq_append(
        n.children.subrange(0, i),
        n.children.subrange(i, n.children.len() as int),
    );
    let tail = n.children.subrange(i, n.children.len() as int);
    assert(tail[0] == n.children[i]);
    assert(rcount_seq(tail) >= rcount(n.children[i]));
}

proof fn lemma_rcount_at_least_one(n: RNode)
    ensures
        rcount(n) >= 1,
{
}

/// The tree with the state and duration of the child at `i` replaced.
pub open spec fn update_child(n: RNode, i: int, st: StateV, dur: u64) -> RNode {
    RNode {
        name: n.name,
        state: n.state,
        duration_ns: n.duration_ns,
        children: n.children.update(
            i,
            RNode {
                name: n.children[i].name,
                state: st,
                duration_ns: dur,
                children: n.children[i].children,
            },
        ),
    }
}

/// The tree with the state and duration of the grandchild at `(i, j)` replaced.
pub open spec fn update_leaf(n: RNode, i: int, j: int, st: StateV, dur: u64) -> RNode {
    RNode {
        name: n.name,
        state: n.state,
        duration_ns: n.duration_ns,
        children: n.children.update(i, update_child(n.children[i], j, st, dur)),
    }
}

impl Results {
    /// Sets the state and duration of the child at an index.
    pub fn set_child(&mut self, i: usize, state: State, duration_ns: u64)
        requires
            i < old(self)@.children.len(),
        ensures
            final(self)@ == update_child(old(self)@, i as int, state@, duration_ns),
    {
        let ghost me = old(self)@;
        let c = &mut self.children[i];
        c.state = state;
        c.duration_ns = duration_ns;
        proof {
            let ov = me.children[i as int];
            let nv = rview(self.children@[i as int]);
            assert(ov == rview(old(self).children@[i as int]));
            assert(nv.children =~= ov.children);
            assert(nv == RNode {
                name: ov.name,
                state: state@,
                duration_ns: duration_ns,
                children: ov.children,
            });
            assert(self@.children =~= me.children.update(i as int, nv));
            assert(self@ =~= update_child(me, i as int, state@, duration_ns));
        }
    }

    /// Sets the state and duration of the grandchild at a pair of indexes.
    pub fn set_leaf(&mut self, i: usize, j: usize, state: State, duration_ns: u64)
        requires
            i < old(self)@.children.len(),
            j < old(self)@.children[i as int].children.len(),
        ensures
            final(self)@ == update_leaf(old(self)@, i as int, j as int, state@, duration_ns),
    {
        let ghost me = old(self)@;
        let c = &mut self.children[i];
        proof {
            assert(c@ == me.children[i as int]);
        }
        c.set_child(j, state, duration_ns);
        proof {
            assert(self@.children =~= me.children.update(
                i as int,
                update_child(me.children[i as int], j as int, state@, duration_ns),
            ));
            assert(self@ =~= update_leaf(me, i as int, j as int, state@, duration_ns));
        }
    }
}

/// The mark a state is drawn with.
pub open spec fn glyph(st: StateV) -> Seq<char> {
    match st {
        StateV::NotRun => seq!['-'],
        StateV::Running => seq!['~'],
        StateV::Passed => seq!['+'],
        StateV::Failed(_) => seq!['x'],
    }
}

/// The text a tree is drawn as: one line per node, marked with its
/// state and duration, children indented two spaces further.
pub open spec fn spec_render(n: RNode, prefix: Seq<char>) -> Seq<char>
    decreases n, 1int,
{
    prefix + glyph(n.state) + seq![' ', '('] + spec_digits(n.duration_ns as int) + seq![
        'n',
        's',
        ')',
        ' ',
    ] + n.name + seq!['\n'] + render_seq(n.children, prefix + seq![' ', ' '])
}

pub open spec fn render_seq(s: Seq<RNode>, prefix: Seq<char>) -> Seq<char>
    decreases s, 0int,
{
    if s.len() == 0 {
        Seq::empty()
    } else {
        spec_render(s[0], prefix) + render_seq(s.drop_first(), prefix)
    }
}

impl Results {
    /// The text this tree is drawn as.
    pub fn render(&self, prefix: &str) -> (r: String)
        ensures
            r@ == spec_render(self@, prefix@),
        decreases rcount(self@),
    {
        proof {
            reveal_strlit(" (");
            reveal_strlit("ns) ");
            reveal_strlit("\n");
            reveal_strlit("  ");
        }
        let ghost me = self@;
        let mut out = String::from_str(prefix);
        match &self.state {
            State::NotRun => out.push('-'),
            State::Running => out.push('~'),
            State::Passed => out.push('+'),
            State::Failed(_) => out.push('x'),
        }
        out.append(" (");
        let dur = u64_to_string(self.duration_ns);
        out.append(dur.as_str());
        out.append("ns) ");
        out.append(self.name.as_str());
        out.append("\n");
        let mut child_prefix = String::from_str(prefix);
        child_prefix.append("  ");
        let ghost cp = prefix@ + seq![' ', ' '];
        proof {
            assert(child_prefix@ =~= cp);
            assert(out@ =~= prefix@ + glyph(me.state) + seq![' ', '('] + spec_digits(
                me.duration_ns as int,
            ) + seq!['n', 's', ')', ' '] + me.name + seq!['\n']);
        }
        let ghost head = out@;
        let mut i: usize = 0;
        proof {
            assert(me.children.skip(0) =~= me.children);
        }
        while i < self.children.len()
            invariant
                i <= self.children@.len(),
                me == self@,
                cp == child_prefix@,
                head + render_seq(me.children, cp) =~= out@ + render_seq(
                    me.children.skip(i as int),
                    cp,
                ),
            decreases self.children@.len() - i,
        {
            proof {
                assert(me.children[i as int] == self.children@[i as int]@);
                assert(decreases_to!(me => me.children));
                lemma_rcount_split(me, i as int);
                assert(me.children.skip(i as int)[0] == me.children[i as int]);
                assert(me.children.skip(i as int).drop_first() =~= me.children.skip(i + 1));
            }
            let ghost before = out@;
            let line = self.children[i].render(child_prefix.as_str());
            out.append(line.as_str());
            proof {
                assert(before + (spec_render(me.children[i as int], cp) + render_seq(
                    me.children.skip(i + 1),
                    cp,
                )) =~= (before + spec_render(me.children[i as int], cp)) + render_seq(
                    me.children.skip(i + 1),
                    cp,
                ));
            }
            i = i + 1;
        }
        proof {
            assert(me.children.skip(me.children.len() as int) =~= Seq::<RNode>::empty());
            assert(out@ + Seq::<char>::empty() =~= out@);
            assert(head + render_seq(me.children, cp) =~= out@);
        }
        out
    }

    /// Writes the tree to the terminal, one line per node.
    pub fn print(&self, s: &mut std::io::Stdout, prefix: &str) -> (r: Result<(), ResultsError>) {
        let text = self.render(prefix);
        write_stdout(s, text.as_str())
    }

    /// Clears the lines of the previous drawing and writes the tree anew.
    pub fn output(&self, s: &mut std::io::Stdout, prefix: &str) -> (r: Result<(), ResultsError>)
        requires
            rcount(self@) <= u16::MAX,
    {
        match self.clear(s) {
            Ok(_) => self.print(s, prefix),
            Err(e) => Err(e),
        }
    }

    /// Moves the cursor up over the previous drawing and clears downward.
    pub fn clear(&self, s: &mut std::io::Stdout) -> (r: Result<(), ResultsError>)
        requires
            rcount(self@) <= u16::MAX,
    {
        let n = self.len();
        match term_move_up(s, n as u16) {
            Ok(_) => term_clear_down(s),
            Err(e) => Err(e),
        }
    }
}

#[verifier::external_type_specification]
#[verifier::external_body]
pub struct ExStdout(std::io::Stdout);

/// Relies on std::io::Write::write_all through the write macro: hands
/// the text to the standard output handle.
#[verifier::external_body]
fn write_stdout(s: &mut std::io::Stdout, text: &str) -> (r: Result<(), ResultsError>) {
    match write!(s, "{}", text) {
        Ok(_) => Ok(()),
        Err(e) => Err(ResultsError::TerminalError(e.to_string())),
    }
}

/// Relies on crossterm's ExecutableCommand::execute with cursor::MoveUp:
/// moves the cursor up that many lines.
#[verifier::external_body]
fn term_move_up(s: &mut std::io::Stdout, n: u16) -> (r: Result<(), ResultsError>) {
    match crossterm::ExecutableCommand::execute(s, crossterm::cursor::MoveUp(n)) {
        Ok(_) => Ok(()),
        Err(e) => Err(ResultsError::TerminalError(e.to_string())),
    }
}

/// Relies on crossterm's ExecutableCommand::execute with
/// terminal::Clear(FromCursorDown): clears from the cursor to the end
/// of the screen.
#[verifier::external_body]
fn term_clear_down(s: &mut std::io::Stdout) -> (r: Result<(), ResultsError>) {
    match crossterm::ExecutableCommand::execute(
        s,
        crossterm::terminal::Clear(crossterm::terminal::ClearType::FromCursorDown),
    ) {
        Ok(_) => Ok(()),
        Err(e) => Err(ResultsError::TerminalError(e.to_string())),
    }
}

} // verus!
