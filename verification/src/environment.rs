use vstd::prelude::*;

use crate::expressions::{obj_view, FunctionType, Object, ObjectModel};
use crate::scanner::text_eq;

verus! {

/// One binding: a name and the cell (index into the environment's cell
/// arena) it resolves to.  Closures share outer bindings by holding the same
/// cell index, so assignment through any holder is seen by all.
#[derive(Debug)]
pub struct MemEntry {
    pub name: std::string::String,
    pub cell: usize,
}

/// One frame of the scope stack: bindings in definition order, where a later
/// binding of the same name shadows an earlier one.
#[derive(Debug)]
pub struct Memory {
    pub entries: Vec<MemEntry>,
}

pub open spec fn mem_view(m: Memory) -> Seq<(Seq<char>, int)> {
    m.entries@.map_values(|e: MemEntry| (e.name@, e.cell as int))
}

pub open spec fn injects_view(s: Seq<MemEntry>) -> Seq<(Seq<char>, int)> {
    s.map_values(|e: MemEntry| (e.name@, e.cell as int))
}

/// The cell a name resolves to in one frame: the latest binding of the name,
/// if any.
pub open spec fn frame_lookup(fr: Seq<(Seq<char>, int)>, name: Seq<char>) -> Option<int>
    decreases fr.len(),
{
    if fr.len() == 0 {
        None
    } else if fr.last().0 == name {
        Some(fr.last().1)
    } else {
        frame_lookup(fr.drop_last(), name)
    }
}

/// The cell a name resolves to on a scope stack: frames searched top-down.
pub open spec fn env_resolve(stack: Seq<Seq<(Seq<char>, int)>>, name: Seq<char>) -> Option<int>
    decreases stack.len(),
{
    if stack.len() == 0 {
        None
    } else {
        match frame_lookup(stack.last(), name) {
            Some(c) => Some(c),
            None => env_resolve(stack.drop_last(), name),
        }
    }
}

impl Memory {
    pub fn new() -> (r: Memory)
        ensures
            mem_view(r) == Seq::<(Seq<char>, int)>::empty(),
    {
        let r = Memory { entries: Vec::new() };
        proof {
            assert(mem_view(r) =~= Seq::<(Seq<char>, int)>::empty());
        }
        r
    }

    /// Binds `name` to `cell`, shadowing any earlier binding of the name in
    /// this frame.
    pub fn define(&mut self, name: std::string::String, cell: usize)
        ensures
            mem_view(*final(self)) == mem_view(*old(self)).push((name@, cell as int)),
    {
        let ghost pre = self.entries@;
        self.entries.push(MemEntry { name, cell });
        proof {
            assert forall|i: int| 0 <= i < pre.len() + 1 implies mem_view(*self)[i] == mem_view(
                *old(self),
            ).push((name@, cell as int))[i] by {
                if i < pre.len() {
                    assert(self.entries@[i] == pre[i]);
                }
            }
            assert(mem_view(*self) =~= mem_view(*old(self)).push((name@, cell as int)));
        }
    }

    /// The cell this frame binds `name` to, if any.
    pub fn get(&self, name: &str) -> (r: Option<usize>)
        ensures
            match frame_lookup(mem_view(*self), name@) {
                Some(c) => r matches Some(u) && u as int == c,
                None => r is None,
            },
    {
        let ghost full = mem_view(*self);
        let mut i: usize = self.entries.len();
        proof {
            assert(mem_view(*self).subrange(0, self.entries@.len() as int) =~= mem_view(*self));
        }
        while i > 0
            invariant
                i <= self.entries@.len(),
                full == mem_view(*self),
                frame_lookup(full, name@) == frame_lookup(
                    mem_view(*self).subrange(0, i as int),
                    name@,
                ),
            decreases i,
        {
            i = i - 1;
            let ghost sub = mem_view(*self).subrange(0, i + 1);
            if text_eq(self.entries[i].name.as_str(), name) {
                proof {
                    assert(sub.last() == mem_view(*self)[i as int]);
                }
                return Some(self.entries[i].cell);
            }
            proof {
                assert(sub.last() == mem_view(*self)[i as int]);
                assert(sub.drop_last() =~= mem_view(*self).subrange(0, i as int));
            }
        }
        proof {
            assert(mem_view(*self).subrange(0, 0) =~= Seq::<(Seq<char>, int)>::empty());
        }
        None
    }
}

/// The mathematical shadow of the environment: the cell arena, the scope
/// stack, the pending injections, the return signal, and the function-kind
/// markers.
pub ghost struct EnvModel {
    pub cells: Seq<ObjectModel>,
    pub stack: Seq<Seq<(Seq<char>, int)>>,
    pub injects: Seq<(Seq<char>, int)>,
    pub ret: Option<ObjectModel>,
    pub in_function: Seq<FunctionType>,
}

/// The runtime environment: a stack of scope frames over one cell arena,
/// plus the return-value side channel, the pending injections preloaded into
/// the next pushed frame, and the function-kind marker stack.
pub struct Environment {
    pub cells: Vec<Object>,
    pub stack: Vec<Memory>,
    pub injects: Vec<MemEntry>,
    pub return_value: Option<Object>,
    pub in_function: Vec<FunctionType>,
}

pub open spec fn cells_view(cs: Seq<Object>) -> Seq<ObjectModel> {
    cs.map_values(|o: Object| obj_view(o))
}

pub open spec fn stack_view(s: Seq<Memory>) -> Seq<Seq<(Seq<char>, int)>> {
    s.map_values(|m: Memory| mem_view(m))
}

impl View for Environment {
    type V = EnvModel;

    open spec fn view(&self) -> EnvModel {
        EnvModel {
            cells: cells_view(self.cells@),
            stack: stack_view(self.stack@),
            injects: injects_view(self.injects@),
            ret: match self.return_value {
                Some(o) => Some(obj_view(o)),
                None => None,
            },
            in_function: self.in_function@,
        }
    }
}

impl Environment {
    /// A fresh environment: one empty global frame, nothing pending.
    pub fn new() -> (r: Environment)
        ensures
            r@.cells == Seq::<ObjectModel>::empty(),
            r@.stack == seq![Seq::<(Seq<char>, int)>::empty()],
            r@.injects == Seq::<(Seq<char>, int)>::empty(),
            r@.ret is None,
            r@.in_function == Seq::<FunctionType>::empty(),
    {
        let mut stack: Vec<Memory> = Vec::new();
        stack.push(Memory::new());
        let r = Environment {
            cells: Vec::new(),
            stack,
            injects: Vec::new(),
            return_value: None,
            in_function: Vec::new(),
        };
        proof {
            assert(r@.cells =~= Seq::<ObjectModel>::empty());
            assert(r@.stack =~= seq![Seq::<(Seq<char>, int)>::empty()]);
            assert(r@.injects =~= Seq::<(Seq<char>, int)>::empty());
        }
        r
    }

    /// Allocates a fresh cell holding `value` and binds `name` to it in the
    /// topmost frame.
    pub fn define(&mut self, name: std::string::String, value: Object) -> (cell: usize)
        requires
            old(self)@.stack.len() > 0,
        ensures
            cell as int == old(self)@.cells.len(),
            final(self)@.cells == old(self)@.cells.push(obj_view(value)),
            final(self)@.stack == old(self)@.stack.update(
                old(self)@.stack.len() - 1,
                old(self)@.stack.last().push((name@, cell as int)),
            ),
            final(self)@.injects == old(self)@.injects,
            final(self)@.ret == old(self)@.ret,
            final(self)@.in_function == old(self)@.in_function,
    {
        let cell = self.cells.len();
        let ghost precells = self.cells@;
        self.cells.push(value);
        let top = self.stack.len() - 1;
        let ghost prestack = self.stack@;
        let ghost pretop = mem_view(self.stack@[top as int]);
        let m = &mut self.stack[top];
        m.define(name, cell);
        proof {
            assert(cells_view(self.cells@) =~= cells_view(precells).push(obj_view(value)));
            assert forall|i: int| 0 <= i < prestack.len() implies stack_view(self.stack@)[i]
                == stack_view(prestack).update(
                prestack.len() - 1,
                pretop.push((name@, cell as int)),
            )[i] by {
                if i < top as int {
                    assert(self.stack@[i] == prestack[i]);
                }
            }
            assert(stack_view(self.stack@) =~= stack_view(prestack).update(
                prestack.len() - 1,
                pretop.push((name@, cell as int)),
            ));
        }
        cell
    }

    /// The cell `name` resolves to, searching frames top-down.
    pub fn resolve(&self, name: &str) -> (r: Option<usize>)
        ensures
            match env_resolve(self@.stack, name@) {
                Some(c) => r matches Some(u) && u as int == c,
                None => r is None,
            },
    {
        let mut i: usize = self.stack.len();
        proof {
            assert(self@.stack.subrange(0, self.stack@.len() as int) =~= self@.stack);
        }
        while i > 0
            invariant
                i <= self.stack@.len(),
                env_resolve(self@.stack, name@) == env_resolve(
                    self@.stack.subrange(0, i as int),
                    name@,
                ),
            decreases i,
        {
            i = i - 1;
            let ghost sub = self@.stack.subrange(0, i + 1);
            proof {
                assert(sub.last() == self@.stack[i as int]);
                assert(sub.drop_last() =~= self@.stack.subrange(0, i as int));
            }
            match self.stack[i].get(name) {
                Some(c) => {
                    return Some(c);
                },
                None => {},
            }
        }
        proof {
            assert(self@.stack.subrange(0, 0) =~= Seq::<Seq<(Seq<char>, int)>>::empty());
        }
        None
    }

    /// The value `name` resolves to, if the name is bound and its cell is in
    /// the arena.
    pub fn get(&self, name: &str) -> (r: Option<&Object>)
        ensures
            match env_resolve(self@.stack, name@) {
                Some(c) => {
                    if 0 <= c < self@.cells.len() {
                        r matches Some(o) && obj_view(*o) == self@.cells[c]
                    } else {
                        r is None
                    }
                },
                None => r is None,
            },
    {
        match self.resolve(name) {
            Some(c) => {
                if c < self.cells.len() {
                    Some(&self.cells[c])
                } else {
                    None
                }
            },
            None => None,
        }
    }

    /// Writes the cell `name` resolves to; returns whether a binding was
    /// found (with its cell in the arena).
    pub fn assign(&mut self, name: &str, value: Object) -> (r: bool)
        ensures
            final(self)@.stack == old(self)@.stack,
            final(self)@.injects == old(self)@.injects,
            final(self)@.ret == old(self)@.ret,
            final(self)@.in_function == old(self)@.in_function,
            match env_resolve(old(self)@.stack, name@) {
                Some(c) => {
                    if 0 <= c < old(self)@.cells.len() {
                        r && final(self)@.cells == old(self)@.cells.update(c, obj_view(value))
                    } else {
                        !r && final(self)@.cells == old(self)@.cells
                    }
                },
                None => !r && final(self)@.cells == old(self)@.cells,
            },
    {
        let ghost pre = self.cells@;
        match self.resolve(name) {
            Some(c) => {
                if c < self.cells.len() {
                    self.cells[c] = value;
                    proof {
                        assert(cells_view(self.cells@) =~= cells_view(pre).update(
                            c as int,
                            obj_view(value),
                        ));
                    }
                    true
                } else {
                    false
                }
            },
            None => false,
        }
    }

    /// True when `name` is visible but not in the topmost frame: reading it
    /// from a function body being defined means capturing the binding.
    pub fn need_to_capture(&self, name: &str) -> (r: bool)
        ensures
            r == (self@.stack.len() > 0 && frame_lookup(self@.stack.last(), name@) is None
                && env_resolve(self@.stack.drop_last(), name@) is Some),
    {
        if self.stack.len() == 0 {
            return false;
        }
        let top = self.stack.len() - 1;
        proof {
            assert(self@.stack.last() == stack_view(self.stack@)[top as int]);
        }
        match self.stack[top].get(name) {
            Some(_) => false,
            None => {
                let mut i: usize = top;
                proof {
                    assert(self@.stack.drop_last() =~= self@.stack.subrange(0, top as int));
                }
                while i > 0
                    invariant
                        i <= top < self.stack@.len(),
                        top as int == self.stack@.len() - 1,
                        frame_lookup(self@.stack.last(), name@) is None,
                        env_resolve(self@.stack.drop_last(), name@) == env_resolve(
                            self@.stack.subrange(0, i as int),
                            name@,
                        ),
                    decreases i,
                {
                    i = i - 1;
                    let ghost sub = self@.stack.subrange(0, i + 1);
                    proof {
                        assert(sub.last() == self@.stack[i as int]);
                        assert(sub.drop_last() =~= self@.stack.subrange(0, i as int));
                        assert(self@.stack.drop_last() =~= self@.stack.subrange(0, top as int));
                    }
                    match self.stack[i].get(name) {
                        Some(_) => {
                            return true;
                        },
                        None => {},
                    }
                }
                proof {
                    assert(self@.stack.subrange(0, 0) =~= Seq::<Seq<(Seq<char>, int)>>::empty());
                    assert(self@.stack.drop_last() =~= self@.stack.subrange(0, top as int));
                }
                false
            },
        }
    }

    /// Queues a binding to be preloaded into the next pushed frame.
    pub fn inject(&mut self, name: std::string::String, cell: usize)
        ensures
            final(self)@.injects == old(self)@.injects.push((name@, cell as int)),
            final(self)@.cells == old(self)@.cells,
            final(self)@.stack == old(self)@.stack,
            final(self)@.ret == old(self)@.ret,
            final(self)@.in_function == old(self)@.in_function,
    {
        let ghost pre = self.injects@;
        self.injects.push(MemEntry { name, cell });
        proof {
            assert forall|i: int| 0 <= i < pre.len() + 1 implies injects_view(self.injects@)[i]
                == injects_view(pre).push((self.injects@.last().name@, self.injects@.last().cell as int))[i] by {
                if i < pre.len() {
                    assert(self.injects@[i] == pre[i]);
                }
            }
            assert(injects_view(self.injects@) =~= old(self)@.injects.push(
                (self.injects@.last().name@, self.injects@.last().cell as int),
            ));
        }
    }

    /// Pushes `memory` as the new topmost frame, draining the pending
    /// injections into it in the order they were queued.
    pub fn stackpush(&mut self, memory: Memory)
        ensures
            final(self)@.stack == old(self)@.stack.push(mem_view(memory) + old(self)@.injects),
            final(self)@.injects == Seq::<(Seq<char>, int)>::empty(),
            final(self)@.cells == old(self)@.cells,
            final(self)@.ret == old(self)@.ret,
            final(self)@.in_function == old(self)@.in_function,
    {
        let mut m = memory;
        let ghost base = mem_view(memory);
        let ghost pend = injects_view(self.injects@);
        let mut j: usize = 0;
        while j < self.injects.len()
            invariant
                j <= self.injects@.len(),
                pend == injects_view(self.injects@),
                self.injects@.len() == pend.len(),
                mem_view(m) == base + pend.subrange(0, j as int),
            decreases self.injects@.len() - j,
        {
            let name = self.injects[j].name.clone();
            let cell = self.injects[j].cell;
            let ghost prem = mem_view(m);
            m.define(name, cell);
            proof {
                assert(pend[j as int] == (self.injects@[j as int].name@, self.injects@[
                    j as int].cell as int));
                assert(mem_view(m) =~= base + pend.subrange(0, j + 1));
            }
            j = j + 1;
        }
        proof {
            assert(pend.subrange(0, pend.len() as int) =~= pend);
        }
        self.injects = Vec::new();
        let ghost prestack = self.stack@;
        self.stack.push(m);
        proof {
            assert(injects_view(self.injects@) =~= Seq::<(Seq<char>, int)>::empty());
            assert(stack_view(self.stack@) =~= stack_view(prestack).push(base + pend));
        }
    }

    /// Pushes an empty scratch frame, leaving pending injections alone.
    pub fn stack_temp_push(&mut self)
        ensures
            final(self)@.stack == old(self)@.stack.push(Seq::<(Seq<char>, int)>::empty()),
            final(self)@.injects == old(self)@.injects,
            final(self)@.cells == old(self)@.cells,
            final(self)@.ret == old(self)@.ret,
            final(self)@.in_function == old(self)@.in_function,
    {
        let ghost prestack = self.stack@;
        self.stack.push(Memory::new());
        proof {
            assert(stack_view(self.stack@) =~= stack_view(prestack).push(
                Seq::<(Seq<char>, int)>::empty(),
            ));
        }
    }

    /// Pops the topmost scratch frame.
    pub fn stack_temp_pop(&mut self)
        ensures
            old(self)@.stack.len() == 0 ==> *final(self) == *old(self),
            old(self)@.stack.len() > 0 ==> final(self)@.stack == old(self)@.stack.drop_last()
                && final(self)@.injects == old(self)@.injects && final(self)@.cells == old(self)@.cells && final(self)@.ret == old(self)@.ret && final(self)@.in_function == old(self)@.in_function,
    {
        let ghost prestack = self.stack@;
        if self.stack.len() > 0 {
            let _m = self.stack.pop();
            proof {
                assert(stack_view(self.stack@) =~= stack_view(prestack).drop_last());
            }
        }
    }

    /// Pops the topmost frame, discarding any pending injections too.
    pub fn stackpop(&mut self) -> (r: Option<Memory>)
        ensures
            final(self)@.injects == Seq::<(Seq<char>, int)>::empty(),
            final(self)@.cells == old(self)@.cells,
            final(self)@.ret == old(self)@.ret,
            final(self)@.in_function == old(self)@.in_function,
            old(self)@.stack.len() == 0 ==> r is None && final(self)@.stack == old(self)@.stack,
            old(self)@.stack.len() > 0 ==> (r matches Some(m) && mem_view(m) == old(self)@.stack.last()) && final(self)@.stack == old(self)@.stack.drop_last(),
    {
        self.injects = Vec::new();
        let ghost prestack = self.stack@;
        let r = self.stack.pop();
        proof {
            assert(injects_view(self.injects@) =~= Seq::<(Seq<char>, int)>::empty());
            if prestack.len() > 0 {
                assert(stack_view(self.stack@) =~= stack_view(prestack).drop_last());
                assert(stack_view(prestack).last() == mem_view(prestack.last()));
            }
        }
        r
    }

    /// Raises the return signal with the given value.
    pub fn set_return(&mut self, value: Object)
        ensures
            final(self)@.ret == Some(obj_view(value)),
            final(self)@.cells == old(self)@.cells,
            final(self)@.stack == old(self)@.stack,
            final(self)@.injects == old(self)@.injects,
            final(self)@.in_function == old(self)@.in_function,
    {
        self.return_value = Some(value);
    }

    pub fn is_set_return(&self) -> (r: bool)
        ensures
            r == (self@.ret is Some),
    {
        self.return_value.is_some()
    }

    /// Consumes the return signal, yielding its value, or nil when none was
    /// raised.
    pub fn unset_return(&mut self) -> (r: Object)
        ensures
            final(self)@.ret is None,
            obj_view(r) == (match old(self)@.ret {
                Some(m) => m,
                None => ObjectModel::NilV,
            }),
            final(self)@.cells == old(self)@.cells,
            final(self)@.stack == old(self)@.stack,
            final(self)@.injects == old(self)@.injects,
            final(self)@.in_function == old(self)@.in_function,
    {
        match self.return_value.take() {
            Some(v) => v,
            None => Object::NilObject,
        }
    }

    /// Enters a callable of the given kind.
    pub fn set_in_function(&mut self, kind: FunctionType)
        ensures
            final(self)@.in_function == old(self)@.in_function.push(kind),
            final(self)@.cells == old(self)@.cells,
            final(self)@.stack == old(self)@.stack,
            final(self)@.injects == old(self)@.injects,
            final(self)@.ret == old(self)@.ret,
    {
        self.in_function.push(kind);
    }

    /// Leaves the innermost callable.
    pub fn clear_in_function(&mut self)
        ensures
            old(self)@.in_function.len() == 0 ==> *final(self) == *old(self),
            old(self)@.in_function.len() > 0 ==> final(self)@.in_function == old(self)@.in_function.drop_last() && final(self)@.cells == old(self)@.cells && final(self)@.stack == old(self)@.stack && final(self)@.injects == old(self)@.injects && final(self)@.ret == old(self)@.ret,
    {
        if self.in_function.len() > 0 {
            let _k = self.in_function.pop();
        }
    }

    pub fn is_in_function(&self) -> (r: bool)
        ensures
            r == (self@.in_function.len() > 0 && self@.in_function.last()
                == FunctionType::Function),
    {
        if self.in_function.len() == 0 {
            return false;
        }
        let k = self.in_function[self.in_function.len() - 1];
        k == FunctionType::Function
    }

    pub fn is_in_method(&self) -> (r: bool)
        ensures
            r == (self@.in_function.len() > 0 && self@.in_function.last() == FunctionType::Method),
    {
        if self.in_function.len() == 0 {
            return false;
        }
        let k = self.in_function[self.in_function.len() - 1];
        k == FunctionType::Method
    }

    pub fn is_in_constructor(&self) -> (r: bool)
        ensures
            r == (self@.in_function.len() > 0 && self@.in_function.last()
                == FunctionType::Constructor),
    {
        if self.in_function.len() == 0 {
            return false;
        }
        let k = self.in_function[self.in_function.len() - 1];
        k == FunctionType::Constructor
    }
}


// ---------------------------------------------------------------------------
// The scoping discipline, stated over the model.
// ---------------------------------------------------------------------------
/// Scoping: whatever bindings a frame gathered, popping it restores exactly
/// the resolution the stack had before it was pushed — names bound inside
/// the frame are invisible outside it, and every outer binding is unchanged.
pub proof fn lemma_scoping(stack: Seq<Seq<(Seq<char>, int)>>, frame: Seq<(Seq<char>, int)>, name: Seq<char>)
    ensures
        env_resolve(stack.push(frame).drop_last(), name) == env_resolve(stack, name),
{
    assert(stack.push(frame).drop_last() =~= stack);
}

/// Defining a name binds it: the latest binding of a name is the one a
/// lookup finds.
pub proof fn lemma_define_binds(fr: Seq<(Seq<char>, int)>, name: Seq<char>, cell: int)
    ensures
        frame_lookup(fr.push((name, cell)), name) == Some(cell),
{
    assert(fr.push((name, cell)).last() == (name, cell));
}

/// Defining one name leaves every other name's binding alone.
pub proof fn lemma_define_preserves_others(
    fr: Seq<(Seq<char>, int)>,
    name: Seq<char>,
    cell: int,
    other: Seq<char>,
)
    requires
        other != name,
    ensures
        frame_lookup(fr.push((name, cell)), other) == frame_lookup(fr, other),
{
    assert(fr.push((name, cell)).last() == (name, cell));
    assert(fr.push((name, cell)).drop_last() =~= fr);
}

} // verus!
