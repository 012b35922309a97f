//! The plain interpreter: one grid cell per engine round.
//!
//! Each round is proved to perform exactly one step of the
//! specification-level semantics: fetch the cell, apply its operation
//! to the containers or the streams, then advance the cursor with the
//! reverse flag the operation produced.

use crate::arith::BinaryOp;
use crate::codec::{is_scalar_value, push_dec_i32, push_scalar_utf8};
use crate::inst::{inst_valid, Inst, Oper, Select};
use crate::semantics::{env_ok, op_result, spec_step, steps_to, EnvModel, Fault, OpRes, StepRes};
use crate::storage::{lemma_selected_views, Storage, StorageSelector};
use crate::vm::{cell_at, BorrowedCode, Engine, Env, Flow};
use vstd::prelude::*;

verus! {

/// Interprets a grid cell by cell.
pub struct Interpreter<'a> {
    pub code: BorrowedCode<'a>,
}

impl<'a> Interpreter<'a> {
    /// An interpreter over the given grid.
    pub fn new(code: BorrowedCode<'a>) -> (r: Self)
        ensures
            r.code.index@ == code.index@,
            r.code.code@ == code.code@,
    {
        Interpreter { code }
    }
}

impl<'a> Engine for Interpreter<'a> {
    open spec fn code_model(&self) -> Seq<Seq<Inst>> {
        self.code.lines()
    }

    open spec fn wf(&self) -> bool {
        self.code.wf()
    }

    #[verifier::rlimit(100)]
    fn step(&self, env: &mut Env) -> (r: Flow) {
        let ghost code = self.code.lines();
        let ghost pre = env@;
        let inst = match self.code.get_inst(env.cursor.address) {
            Some(inst) => inst,
            None => {
                // the cursor always stands on a cell
                proof {
                    assert(false);
                }
                return Flow::Fault(Fault::OffGrid);
            },
        };
        proof {
            assert(cell_at(code, pre.cursor.address) == Some(inst));
            assert(inst_valid(inst));
            assert(steps_to(code, pre, 0) == Some(pre));
        }
        let is_ch = match env.storages.get_select() {
            Select::Channel => true,
            _ => false,
        };
        let mut reverse = false;
        match inst.oper {
            Oper::Nop => {
                proof {
                    assert(op_result(pre, inst.oper) == OpRes::Go(env@, false));
                }
            },
            Oper::Halt => {
                if is_ch {
                    proof {
                        assert(spec_step(code, pre) == StepRes::Aborted(
                            Fault::Channel,
                            env@.output,
                        ));
                    }
                    return Flow::Fault(Fault::Channel);
                }
                let st = env.storages.selected();
                let exit = match st.try_pop() {
                    Some(v) => v,
                    None => 0,
                };
                proof {
                    assert(spec_step(code, pre) == StepRes::Halted(exit, env@.output));
                }
                return Flow::Halt(exit);
            },
            Oper::Add | Oper::Sub | Oper::Mul | Oper::Div | Oper::Mod | Oper::Compare => {
                if is_ch {
                    proof {
                        assert(spec_step(code, pre) == StepRes::Aborted(
                            Fault::Channel,
                            env@.output,
                        ));
                    }
                    return Flow::Fault(Fault::Channel);
                }
                let op = match inst.oper {
                    Oper::Sub => BinaryOp::Sub,
                    Oper::Mul => BinaryOp::Mul,
                    Oper::Div => BinaryOp::Div,
                    Oper::Mod => BinaryOp::Mod,
                    Oper::Compare => BinaryOp::Cmp,
                    _ => BinaryOp::Add,
                };
                let ghost pre_st = env.storages;
                let st = env.storages.selected();
                let outcome = st.binary_op_assign(op);
                proof {
                    lemma_selected_views(pre_st, env.storages, pre.sel);
                }
                match outcome {
                    crate::storage::FoldOutcome::Done => {
                        proof {
                            assert(env@.stacks =~= op_result(pre, inst.oper)->Go_0.stacks);
                            assert(op_result(pre, inst.oper) == OpRes::Go(env@, false));
                        }
                    },
                    crate::storage::FoldOutcome::Underflow => {
                        reverse = true;
                        proof {
                            assert(env@ =~~= pre);
                            assert(op_result(pre, inst.oper) == OpRes::Go(env@, true));
                        }
                    },
                    crate::storage::FoldOutcome::DivByZero => {
                        proof {
                            assert(spec_step(code, pre) == StepRes::Aborted(
                                Fault::DivByZero,
                                env@.output,
                            ));
                        }
                        return Flow::Fault(Fault::DivByZero);
                    },
                }
            },
            Oper::WriteChar => {
                if is_ch {
                    proof {
                        assert(spec_step(code, pre) == StepRes::Aborted(
                            Fault::Channel,
                            env@.output,
                        ));
                    }
                    return Flow::Fault(Fault::Channel);
                }
                let ghost pre_st = env.storages;
                let st = env.storages.selected();
                match st.try_pop() {
                    None => {
                        reverse = true;
                        proof {
                            lemma_selected_views(pre_st, env.storages, pre.sel);
                            assert(env@ =~~= pre);
                            assert(op_result(pre, inst.oper) == OpRes::Go(env@, true));
                        }
                    },
                    Some(v) => {
                        proof {
                            lemma_selected_views(pre_st, env.storages, pre.sel);
                        }
                        if v < 0 {
                            proof {
                                assert(spec_step(code, pre) == StepRes::Aborted(
                                    Fault::Scalar,
                                    env@.output,
                                ));
                            }
                            return Flow::Fault(Fault::Scalar);
                        }
                        let u = v as u32;
                        if !is_scalar_value(u) {
                            proof {
                                assert(spec_step(code, pre) == StepRes::Aborted(
                                    Fault::Scalar,
                                    env@.output,
                                ));
                            }
                            return Flow::Fault(Fault::Scalar);
                        }
                        push_scalar_utf8(&mut env.output, u);
                        proof {
                            assert(env@.stacks =~= op_result(pre, inst.oper)->Go_0.stacks);
                            assert(env@.output =~= op_result(pre, inst.oper)->Go_0.output);
                            assert(op_result(pre, inst.oper) == OpRes::Go(env@, false));
                        }
                    },
                }
            },
            Oper::WriteInt => {
                if is_ch {
                    proof {
                        assert(spec_step(code, pre) == StepRes::Aborted(
                            Fault::Channel,
                            env@.output,
                        ));
                    }
                    return Flow::Fault(Fault::Channel);
                }
                let ghost pre_st = env.storages;
                let st = env.storages.selected();
                match st.try_pop() {
                    None => {
                        reverse = true;
                        proof {
                            lemma_selected_views(pre_st, env.storages, pre.sel);
                            assert(env@ =~~= pre);
                            assert(op_result(pre, inst.oper) == OpRes::Go(env@, true));
                        }
                    },
                    Some(v) => {
                        push_dec_i32(&mut env.output, v);
                        proof {
                            lemma_selected_views(pre_st, env.storages, pre.sel);
                            assert(env@.stacks =~= op_result(pre, inst.oper)->Go_0.stacks);
                            assert(env@.output =~= op_result(pre, inst.oper)->Go_0.output);
                            assert(op_result(pre, inst.oper) == OpRes::Go(env@, false));
                        }
                    },
                }
            },
            Oper::Pop => {
                if is_ch {
                    proof {
                        assert(spec_step(code, pre) == StepRes::Aborted(
                            Fault::Channel,
                            env@.output,
                        ));
                    }
                    return Flow::Fault(Fault::Channel);
                }
                let ghost pre_st = env.storages;
                let st = env.storages.selected();
                match st.try_pop() {
                    None => {
                        reverse = true;
                        proof {
                            lemma_selected_views(pre_st, env.storages, pre.sel);
                            assert(env@ =~~= pre);
                            assert(op_result(pre, inst.oper) == OpRes::Go(env@, true));
                        }
                    },
                    Some(_) => {
                        proof {
                            lemma_selected_views(pre_st, env.storages, pre.sel);
                            assert(env@.stacks =~= op_result(pre, inst.oper)->Go_0.stacks);
                            assert(op_result(pre, inst.oper) == OpRes::Go(env@, false));
                        }
                    },
                }
            },
            Oper::ReadChar => {
                let v = match env.read_char() {
                    Ok(v) => v,
                    Err(f) => {
                        proof {
                            assert(spec_step(code, pre) == StepRes::Aborted(
                                Fault::Input,
                                env@.output,
                            ));
                        }
                        return Flow::Fault(f);
                    },
                };
                if is_ch {
                    proof {
                        assert(spec_step(code, pre) == StepRes::Aborted(
                            Fault::Channel,
                            env@.output,
                        ));
                    }
                    return Flow::Fault(Fault::Channel);
                }
                let ghost pre_st = env.storages;
                let st = env.storages.selected();
                st.push(v);
                proof {
                    lemma_selected_views(pre_st, env.storages, pre.sel);
                    assert(env@.stacks =~= op_result(pre, inst.oper)->Go_0.stacks);
                    assert(env@.input =~= op_result(pre, inst.oper)->Go_0.input);
                    assert(op_result(pre, inst.oper) == OpRes::Go(env@, false));
                }
            },
            Oper::ReadInt => {
                let v = match env.read_int() {
                    Ok(v) => v,
                    Err(f) => {
                        proof {
                            assert(spec_step(code, pre) == StepRes::Aborted(
                                Fault::Parse,
                                env@.output,
                            ));
                        }
                        return Flow::Fault(f);
                    },
                };
                if is_ch {
                    proof {
                        assert(spec_step(code, pre) == StepRes::Aborted(
                            Fault::Channel,
                            env@.output,
                        ));
                    }
                    return Flow::Fault(Fault::Channel);
                }
                let ghost pre_st = env.storages;
                let st = env.storages.selected();
                st.push(v);
                proof {
                    lemma_selected_views(pre_st, env.storages, pre.sel);
                    assert(env@.stacks =~= op_result(pre, inst.oper)->Go_0.stacks);
                    assert(env@.input =~= op_result(pre, inst.oper)->Go_0.input);
                    assert(op_result(pre, inst.oper) == OpRes::Go(env@, false));
                }
            },
            Oper::Push(n) => {
                if is_ch {
                    proof {
                        assert(spec_step(code, pre) == StepRes::Aborted(
                            Fault::Channel,
                            env@.output,
                        ));
                    }
                    return Flow::Fault(Fault::Channel);
                }
                let ghost pre_st = env.storages;
                let st = env.storages.selected();
                st.push(n as i32);
                proof {
                    lemma_selected_views(pre_st, env.storages, pre.sel);
                    assert(env@.stacks =~= op_result(pre, inst.oper)->Go_0.stacks);
                    assert(op_result(pre, inst.oper) == OpRes::Go(env@, false));
                }
            },
            Oper::Dup => {
                if is_ch {
                    proof {
                        assert(spec_step(code, pre) == StepRes::Aborted(
                            Fault::Channel,
                            env@.output,
                        ));
                    }
                    return Flow::Fault(Fault::Channel);
                }
                let ghost pre_st = env.storages;
                let st = env.storages.selected();
                let ok = st.dup();
                reverse = !ok;
                proof {
                    lemma_selected_views(pre_st, env.storages, pre.sel);
                    if ok {
                        assert(env@.stacks =~= op_result(pre, inst.oper)->Go_0.stacks);
                        assert(op_result(pre, inst.oper) == OpRes::Go(env@, false));
                    } else {
                        assert(env@ =~~= pre);
                        assert(op_result(pre, inst.oper) == OpRes::Go(env@, true));
                    }
                }
            },
            Oper::Swap => {
                if is_ch {
                    proof {
                        assert(spec_step(code, pre) == StepRes::Aborted(
                            Fault::Channel,
                            env@.output,
                        ));
                    }
                    return Flow::Fault(Fault::Channel);
                }
                let ghost pre_st = env.storages;
                let st = env.storages.selected();
                let ok = st.swap();
                reverse = !ok;
                proof {
                    lemma_selected_views(pre_st, env.storages, pre.sel);
                    if ok {
                        assert(env@.stacks =~= op_result(pre, inst.oper)->Go_0.stacks);
                        assert(op_result(pre, inst.oper) == OpRes::Go(env@, false));
                    } else {
                        assert(env@ =~~= pre);
                        assert(op_result(pre, inst.oper) == OpRes::Go(env@, true));
                    }
                }
            },
            Oper::Select(sel) => {
                env.storages.select(sel);
                proof {
                    assert(env@.stacks =~= pre.stacks);
                    assert(op_result(pre, inst.oper) == OpRes::Go(env@, false));
                }
            },
            Oper::Move(target) => {
                if is_ch {
                    proof {
                        assert(spec_step(code, pre) == StepRes::Aborted(
                            Fault::Channel,
                            env@.output,
                        ));
                    }
                    return Flow::Fault(Fault::Channel);
                }
                let ghost pre_st = env.storages;
                let st = env.storages.selected();
                let popped = st.try_pop();
                proof {
                    lemma_selected_views(pre_st, env.storages, pre.sel);
                }
                match popped {
                    None => {
                        reverse = true;
                        proof {
                            assert(env@ =~~= pre);
                            assert(op_result(pre, inst.oper) == OpRes::Go(env@, true));
                        }
                    },
                    Some(v) => {
                        if matches!(target, Select::Channel) {
                            proof {
                                assert(spec_step(code, pre) == StepRes::Aborted(
                                    Fault::Channel,
                                    env@.output,
                                ));
                            }
                            return Flow::Fault(Fault::Channel);
                        }
                        let ghost mid_st = env.storages;
                        let st2 = env.storages.get_storage(target);
                        st2.push(v);
                        proof {
                            lemma_selected_views(mid_st, env.storages, target);
                            assert(env@.stacks =~= op_result(pre, inst.oper)->Go_0.stacks);
                            assert(op_result(pre, inst.oper) == OpRes::Go(env@, false));
                        }
                    },
                }
            },
            Oper::Cond => {
                if is_ch {
                    proof {
                        assert(spec_step(code, pre) == StepRes::Aborted(
                            Fault::Channel,
                            env@.output,
                        ));
                    }
                    return Flow::Fault(Fault::Channel);
                }
                let ghost pre_st = env.storages;
                let st = env.storages.selected();
                match st.try_pop() {
                    None => {
                        reverse = true;
                        proof {
                            lemma_selected_views(pre_st, env.storages, pre.sel);
                            assert(env@ =~~= pre);
                            assert(op_result(pre, inst.oper) == OpRes::Go(env@, true));
                        }
                    },
                    Some(v) => {
                        reverse = v == 0;
                        proof {
                            lemma_selected_views(pre_st, env.storages, pre.sel);
                            assert(env@.stacks =~= op_result(pre, inst.oper)->Go_0.stacks);
                            assert(op_result(pre, inst.oper) == OpRes::Go(env@, v == 0));
                        }
                    },
                }
            },
        }
        proof {
            assert(op_result(pre, inst.oper) == OpRes::Go(env@, reverse));
            assert(env.wf());
            assert(env@.cursor == pre.cursor);
        }
        let ghost mid = env@;
        env.cursor.advance(&self.code, inst.cursor_control, reverse);
        proof {
            assert(env@ =~~= EnvModel { cursor: env@.cursor, ..mid });
            assert(spec_step(code, pre) == StepRes::Next(env@));
            assert(steps_to(code, pre, 1) == Some(env@)) by {
                reveal_with_fuel(crate::semantics::steps_to, 2);
            }
            crate::semantics::lemma_step_preserves_ok(code, pre);
        }
        Flow::Continue
    }
}

} // verus!
