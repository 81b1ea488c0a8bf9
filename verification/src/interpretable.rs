//! A scripted driver: an instruction is an operation applied to a batch of
//! keys, and an interpreter applies a sequence of instructions to a
//! container. The set implements it; printing of intermediate states is left
//! to the embedding program.

use vstd::prelude::*;
use crate::engine::MAX_ENTRIES;
use crate::flat_hash_set::AFHS;

verus! {

#[allow(non_camel_case_types)]
pub enum Op {
    ADD,
    REMOVE,
}

/// One scripted step: apply the operation to every listed key.
pub struct Instr {
    pub op: Op,
    pub nums: Vec<i32>,
}

impl Instr {
    pub fn new(op: Op, nums: Vec<i32>) -> (r: Instr)
        ensures
            r.op == op,
            r.nums == nums,
    {
        Instr { op, nums }
    }
}

/// How many keys the script can add in total: only ADD instructions consume
/// the container's room.
pub open spec fn total_adds(instrs: Seq<Instr>) -> nat
    decreases instrs.len(),
{
    if instrs.len() == 0 {
        0
    } else {
        (if instrs.first().op is ADD {
            instrs.first().nums@.len()
        } else {
            0
        }) + total_adds(instrs.drop_first())
    }
}

/// The effect of one operation on the abstract key set.
pub open spec fn apply_op(op: Op, x: i32, s: Set<i32>) -> Set<i32> {
    match op {
        Op::ADD => s.insert(x),
        Op::REMOVE => s.remove(x),
    }
}

/// The effect of one instruction: its operation applied to each listed key
/// in order.
pub open spec fn apply_instr(op: Op, nums: Seq<i32>, s: Set<i32>) -> Set<i32>
    decreases nums.len(),
{
    if nums.len() == 0 {
        s
    } else {
        apply_instr(op, nums.drop_first(), apply_op(op, nums.first(), s))
    }
}

/// The effect of a whole script, instruction by instruction.
pub open spec fn apply_script(instrs: Seq<Instr>, s: Set<i32>) -> Set<i32>
    decreases instrs.len(),
{
    if instrs.len() == 0 {
        s
    } else {
        apply_script(
            instrs.drop_first(),
            apply_instr(instrs.first().op, instrs.first().nums@, s),
        )
    }
}

/// A container that a script can drive. `model` abstracts the container as
/// the set of keys it holds, `inv` is its well-formedness, and `room` bounds
/// how many more keys it can take.
pub trait Interpretable: Sized {
    spec fn inv(&self) -> bool;

    spec fn room(&self) -> nat;

    spec fn model(&self) -> Set<i32>;

    fn add_op(&mut self, x: i32)
        requires
            old(self).inv(),
            old(self).room() >= 1,
        ensures
            final(self).inv(),
            final(self).room() >= old(self).room() - 1,
            final(self).model() == old(self).model().insert(x),
    ;

    fn remove_op(&mut self, x: i32)
        requires
            old(self).inv(),
        ensures
            final(self).inv(),
            final(self).room() >= old(self).room(),
            final(self).model() == old(self).model().remove(x),
    ;

    /// Run the whole script, batch by batch: the resulting container holds
    /// exactly the script's effect on what it held before.
    fn interpret(&mut self, instructions: &[Instr])
        requires
            old(self).inv(),
            old(self).room() >= total_adds(instructions@),
        ensures
            final(self).inv(),
            final(self).model() == apply_script(instructions@, old(self).model()),
    {
        let n = instructions.len();
        let mut i: usize = 0;
        let ghost m0 = self.model();
        proof {
            assert(instructions@.skip(0) =~= instructions@);
        }
        while i < n
            invariant
                self.inv(),
                i <= n,
                n == instructions@.len(),
                self.room() >= total_adds(instructions@.skip(i as int)),
                apply_script(instructions@.skip(i as int), self.model()) == apply_script(
                    instructions@,
                    m0,
                ),
            decreases n - i,
        {
            proof {
                let suffix = instructions@.skip(i as int);
                assert(suffix.drop_first() =~= instructions@.skip(i as int + 1));
                assert(suffix.first() == instructions@[i as int]);
            }
            let instr = &instructions[i];
            let m = instr.nums.len();
            let mut j: usize = 0;
            proof {
                assert(instr.nums@.skip(0) =~= instr.nums@);
            }
            match instr.op {
                Op::ADD => {
                    while j < m
                        invariant
                            self.inv(),
                            j <= m,
                            m == instr.nums@.len(),
                            instr.op is ADD,
                            self.room() >= total_adds(instructions@.skip(i as int + 1)) + (m - j),
                            apply_script(
                                instructions@.skip(i as int + 1),
                                apply_instr(instr.op, instr.nums@.skip(j as int), self.model()),
                            ) == apply_script(instructions@, m0),
                        decreases m - j,
                    {
                        proof {
                            let rest = instr.nums@.skip(j as int);
                            assert(rest.drop_first() =~= instr.nums@.skip(j as int + 1));
                            assert(rest.first() == instr.nums@[j as int]);
                        }
                        self.add_op(instr.nums[j]);
                        j += 1;
                    }
                },
                Op::REMOVE => {
                    while j < m
                        invariant
                            self.inv(),
                            j <= m,
                            m == instr.nums@.len(),
                            instr.op is REMOVE,
                            self.room() >= total_adds(instructions@.skip(i as int + 1)),
                            apply_script(
                                instructions@.skip(i as int + 1),
                                apply_instr(instr.op, instr.nums@.skip(j as int), self.model()),
                            ) == apply_script(instructions@, m0),
                        decreases m - j,
                    {
                        proof {
                            let rest = instr.nums@.skip(j as int);
                            assert(rest.drop_first() =~= instr.nums@.skip(j as int + 1));
                            assert(rest.first() == instr.nums@[j as int]);
                        }
                        self.remove_op(instr.nums[j]);
                        j += 1;
                    }
                },
            }
            proof {
                assert(instr.nums@.skip(m as int) =~= Seq::<i32>::empty());
            }
            i += 1;
        }
        proof {
            assert(instructions@.skip(n as int) =~= Seq::<Instr>::empty());
        }
    }
}

impl Interpretable for AFHS<i32> {
    open spec fn inv(&self) -> bool {
        self.wf()
    }

    open spec fn room(&self) -> nat {
        if self.spec_size() <= MAX_ENTRIES {
            (MAX_ENTRIES - self.spec_size()) as nat
        } else {
            0
        }
    }

    open spec fn model(&self) -> Set<i32> {
        self@
    }

    fn add_op(&mut self, x: i32) {
        self.add(x);
    }

    fn remove_op(&mut self, x: i32) {
        self.remove(x);
    }
}

} // verus!
