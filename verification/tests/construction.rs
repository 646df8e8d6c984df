use rune_ssa::BlockId;
use rune_ssa::ConstId;
use rune_ssa::ConstValue;
use rune_ssa::Error;
use rune_ssa::ErrorKind;
use rune_ssa::PhiId;
use rune_ssa::Program;
use rune_ssa::SsaOp;
use rune_ssa::SsaValue;
use rune_ssa::VarId;

fn print_blocks(program: &Program) {
    for block in program.blocks().as_slice() {
        println!("block{:?}:", block.id());
        let mut vars = block.assignments();
        vars.sort();
        for (id, value) in vars {
            println!("  v{:?} <- {:?}", id, value);
        }
    }
}

#[test]
fn test_fig_1() -> Result<(), Error> {
    let mut proc = Program::new();
    let entry = proc.block();

    proc.seal(entry)?;

    print_blocks(&proc);
    Ok(())
}

#[test]
fn test_forking() -> Result<(), Error> {
    let mut program = Program::new();

    let a = program.var();
    let _b = program.var();
    let _c = program.var();

    let block0 = program.block();
    let block1 = program.block();
    let block2 = program.block();

    {
        program.write_constant(block0, a, ConstValue::Integer(1))?;
        program.seal(block0)?;
    }

    {
        program.write_constant(block1, a, ConstValue::Integer(2))?;
        program.seal(block1)?;
    }

    {
        program.add_predecessor(block2, block0)?;
        program.add_predecessor(block2, block1)?;
        let v = program.read(block2, a)?;
        program.write_var(block2, a, v)?;

        program.seal(block2)?;
    }

    for block in program.blocks().as_slice() {
        println!("block{}:", block.id().0);

        let mut vars = block.assignments();
        vars.sort();

        for (id, value) in vars {
            println!("  v{}_{} <- {:?}", block.id().0, id.0, value);
        }
    }

    Ok(())
}

#[test]
fn read_of_sealed_block_without_predecessors_is_undef() {
    let mut program = Program::new();
    let v0 = program.var();
    let b0 = program.block();
    program.seal(b0).unwrap();
    assert_eq!(program.read(b0, v0).unwrap(), SsaValue::Undef);
    // the phi that the read made was removed again
    assert_eq!(program.phis().len(), 1);
    assert!(program.phis().get(PhiId(0)).unwrap().users().is_empty());
    assert!(program.phis().get(PhiId(0)).unwrap().operands().is_empty());
    assert_eq!(program.blocks().as_slice()[0].assignments(), vec![(v0, SsaValue::Undef)]);
}

#[test]
fn linear_flow_reads_through_the_only_predecessor() {
    let mut program = Program::new();
    let a = program.var();
    let b0 = program.block();
    let b1 = program.block();
    program.write_constant(b0, a, ConstValue::Integer(1)).unwrap();
    program.seal(b0).unwrap();
    program.add_predecessor(b1, b0).unwrap();
    program.seal(b1).unwrap();
    let in_b1 = program.read(b1, a).unwrap();
    let in_b0 = program.read(b0, a).unwrap();
    assert_eq!(in_b1, in_b0);
    assert_eq!(in_b1, SsaValue::Const(ConstId(0)));
    assert!(matches!(program.get_constant(ConstId(0)), Some(ConstValue::Integer(1))));
    assert!(program.get_constant(ConstId(1)).is_none());
    // no phi was made, and the block that was read through holds no value
    assert_eq!(program.phis().len(), 0);
    assert!(program.blocks().as_slice()[1].assignments().is_empty());
}

#[test]
fn diamond_merge_keeps_its_phi() {
    let mut program = Program::new();
    let a = program.var();
    let b0 = program.block();
    let b1 = program.block();
    let b2 = program.block();
    program.write_constant(b0, a, ConstValue::Integer(1)).unwrap();
    program.write_constant(b1, a, ConstValue::Integer(2)).unwrap();
    program.seal(b0).unwrap();
    program.seal(b1).unwrap();
    program.add_predecessor(b2, b0).unwrap();
    program.add_predecessor(b2, b1).unwrap();
    let value = program.read(b2, a).unwrap();
    assert_eq!(value, SsaValue::Phi(PhiId(0)));
    assert_eq!(
        program.blocks().as_slice()[2].incomplete_phis(),
        &vec![(a, SsaValue::Phi(PhiId(0)))]
    );
    program.write_var(b2, a, value).unwrap();
    program.seal(b2).unwrap();

    let phi = program.phis().get(PhiId(0)).unwrap();
    assert_eq!(phi.block_id(), b2);
    assert_eq!(phi.operands(), &vec![(b0, a), (b1, a)]);
    assert_eq!(phi.users(), &vec![(b2, a), (b2, a)]);
    assert_eq!(program.phis().operands_of(PhiId(0)), &[(b0, a), (b1, a)][..]);
    assert_eq!(program.read(b2, a).unwrap(), SsaValue::Phi(PhiId(0)));
    assert!(program.blocks().as_slice()[2].sealed());
    assert!(program.blocks().as_slice()[2].incomplete_phis().is_empty());
    assert_eq!(program.blocks().as_slice()[2].predecessors(), &vec![b0, b1]);
}

#[test]
fn sealed_diamond_merge_makes_a_phi_on_read() {
    let mut program = Program::new();
    let a = program.var();
    let b0 = program.block();
    let b1 = program.block();
    let b2 = program.block();
    program.write_constant(b0, a, ConstValue::Integer(1)).unwrap();
    program.write_constant(b1, a, ConstValue::Integer(2)).unwrap();
    program.add_predecessor(b2, b0).unwrap();
    program.add_predecessor(b2, b1).unwrap();
    program.seal(b2).unwrap();
    assert_eq!(program.read(b2, a).unwrap(), SsaValue::Phi(PhiId(0)));
    let phi = program.phis().get(PhiId(0)).unwrap();
    assert_eq!(phi.operands().len(), program.blocks().as_slice()[2].predecessors().len());
    assert_eq!(phi.operands(), &vec![(b0, a), (b1, a)]);
    assert_eq!(phi.users(), &vec![(b2, a)]);
    // a second read returns the same value and makes no further phi
    assert_eq!(program.read(b2, a).unwrap(), SsaValue::Phi(PhiId(0)));
    assert_eq!(program.phis().len(), 1);
}

#[test]
fn merge_of_one_value_is_trivial() {
    let mut program = Program::new();
    let a = program.var();
    let b0 = program.block();
    let b1 = program.block();
    let b2 = program.block();
    program.write_constant(b0, a, ConstValue::Integer(7)).unwrap();
    program.write_var(b1, a, SsaValue::Const(ConstId(0))).unwrap();
    program.add_predecessor(b2, b0).unwrap();
    program.add_predecessor(b2, b1).unwrap();
    program.seal(b2).unwrap();
    assert_eq!(program.read(b2, a).unwrap(), SsaValue::Const(ConstId(0)));
    assert_eq!(program.blocks().as_slice()[2].assignments(), vec![(a, SsaValue::Const(ConstId(0)))]);
    assert!(program.phis().get(PhiId(0)).unwrap().users().is_empty());
    assert_eq!(program.read(b2, a).unwrap(), SsaValue::Const(ConstId(0)));
}

#[test]
fn self_loop_phi_is_trivial() {
    let mut program = Program::new();
    let a = program.var();
    let b0 = program.block();
    let b1 = program.block();
    program.write_constant(b0, a, ConstValue::Integer(1)).unwrap();
    program.seal(b0).unwrap();
    program.add_predecessor(b1, b0).unwrap();
    program.add_predecessor(b1, b1).unwrap();
    let value = program.read(b1, a).unwrap();
    assert_eq!(value, SsaValue::Phi(PhiId(0)));
    program.write_var(b1, a, value).unwrap();
    program.seal(b1).unwrap();
    assert_eq!(program.phis().get(PhiId(0)).unwrap().operands(), &vec![(b0, a), (b1, a)]);
    assert!(program.phis().get(PhiId(0)).unwrap().users().is_empty());
    assert_eq!(program.read(b1, a).unwrap(), SsaValue::Const(ConstId(0)));
}

#[test]
fn self_loop_without_a_value_in_the_loop_is_a_missing_variable() {
    let mut program = Program::new();
    let a = program.var();
    let b0 = program.block();
    let b1 = program.block();
    program.write_constant(b0, a, ConstValue::Integer(1)).unwrap();
    program.seal(b0).unwrap();
    program.add_predecessor(b1, b0).unwrap();
    program.add_predecessor(b1, b1).unwrap();
    assert_eq!(program.read(b1, a).unwrap(), SsaValue::Phi(PhiId(0)));
    let error = program.seal(b1).unwrap_err();
    assert_eq!(error.into_kind(), ErrorKind::MissingVar { id: a });
    assert!(!program.blocks().as_slice()[1].sealed());
}

#[test]
fn trivial_phi_removal_cascades() {
    let mut program = Program::new();
    let a = program.var();
    let b0 = program.block();
    let b1 = program.block();
    let b2 = program.block();
    let b3 = program.block();
    program.write_constant(b0, a, ConstValue::Integer(1)).unwrap();

    // inner in b2 and outer in b3, both waiting
    let inner = program.read(b2, a).unwrap();
    program.write_var(b2, a, inner).unwrap();
    let outer = program.read(b3, a).unwrap();
    program.write_var(b3, a, outer).unwrap();
    assert_eq!(inner, SsaValue::Phi(PhiId(0)));
    assert_eq!(outer, SsaValue::Phi(PhiId(1)));

    // outer = phi(inner, const): it merges two values
    program.add_predecessor(b3, b2).unwrap();
    program.add_predecessor(b3, b0).unwrap();
    program.seal(b3).unwrap();
    assert_eq!(program.read(b3, a).unwrap(), outer);

    // now the only operand of outer that is not outer is inner
    program.write_var(b0, a, outer).unwrap();

    // inner = phi(outer, inner): trivial, replaced by outer, which is trivial in turn
    program.add_predecessor(b2, b3).unwrap();
    program.add_predecessor(b2, b2).unwrap();
    program.seal(b2).unwrap();

    assert!(program.phis().get(PhiId(0)).unwrap().users().is_empty());
    assert!(program.phis().get(PhiId(1)).unwrap().users().is_empty());
    assert_eq!(program.read(b3, a).unwrap(), SsaValue::Undef);
    assert_eq!(program.read(b0, a).unwrap(), SsaValue::Undef);
    assert_eq!(program.read(b2, a).unwrap(), outer);
    assert_eq!(program.read(b1, a).unwrap(), SsaValue::Phi(PhiId(2)));
}

#[test]
fn double_seal_is_rejected() {
    let mut program = Program::new();
    let b0 = program.block();
    program.seal(b0).unwrap();
    let error = program.seal(b0).unwrap_err();
    assert_eq!(error.into_kind(), ErrorKind::BlockAlreadySealed { block_id: b0 });
}

#[test]
fn missing_block_is_reported() {
    let mut program = Program::new();
    let a = program.var();
    let b0 = program.block();
    let missing = BlockId(1);
    assert_eq!(
        program.read(missing, a).unwrap_err().into_kind(),
        ErrorKind::MissingBlock { block_id: missing }
    );
    assert_eq!(
        program.write_var(missing, a, SsaValue::Undef).unwrap_err().into_kind(),
        ErrorKind::MissingBlock { block_id: missing }
    );
    assert_eq!(
        program.write(missing, a, SsaValue::Undef).unwrap_err().into_kind(),
        ErrorKind::MissingBlock { block_id: missing }
    );
    assert_eq!(
        program.write_constant(missing, a, ConstValue::Unit).unwrap_err().into_kind(),
        ErrorKind::MissingBlock { block_id: missing }
    );
    assert_eq!(
        program.add_predecessor(missing, b0).unwrap_err().into_kind(),
        ErrorKind::MissingBlock { block_id: missing }
    );
    assert_eq!(
        program.seal(missing).unwrap_err().into_kind(),
        ErrorKind::MissingBlock { block_id: missing }
    );
    // the constant was interned although the write failed
    assert!(matches!(program.get_constant(ConstId(0)), Some(ConstValue::Unit)));
}

#[test]
fn missing_predecessor_is_reported_by_the_read() {
    let mut program = Program::new();
    let a = program.var();
    let b0 = program.block();
    program.add_predecessor(b0, BlockId(5)).unwrap();
    program.seal(b0).unwrap();
    assert_eq!(
        program.read(b0, a).unwrap_err().into_kind(),
        ErrorKind::MissingBlock { block_id: BlockId(5) }
    );
}

#[test]
fn missing_phi_is_reported() {
    let mut program = Program::new();
    let a = program.var();
    let b0 = program.block();
    let error = program.write_var(b0, a, SsaValue::Phi(PhiId(3))).unwrap_err();
    assert_eq!(error.into_kind(), ErrorKind::MissingPhi { phi_id: PhiId(3) });
    assert!(program.blocks().as_slice()[0].assignments().is_empty());
    assert!(program.phis().get(PhiId(3)).is_err());
    assert!(program.phis().operands_of(PhiId(3)).is_empty());
}

#[test]
fn write_overwrites_and_hands_out_a_variable() {
    let mut program = Program::new();
    let a = program.var();
    let b = program.var();
    assert_eq!(a, VarId(0));
    assert_eq!(b, VarId(1));
    let b0 = program.block();
    assert_eq!(b0, BlockId(0));
    let fresh = program.write(b0, a, SsaValue::Op(SsaOp::Add, a, b)).unwrap();
    assert_eq!(fresh, VarId(2));
    assert_eq!(program.read(b0, a).unwrap(), SsaValue::Op(SsaOp::Add, a, b));
    program.write_var(b0, a, SsaValue::Op(SsaOp::Mul, b, a)).unwrap();
    assert_eq!(program.read(b0, a).unwrap(), SsaValue::Op(SsaOp::Mul, b, a));
    program.write_var(b0, b, SsaValue::Undef).unwrap();
    let mut held = program.blocks().as_slice()[0].assignments();
    held.sort();
    assert_eq!(held, vec![(a, SsaValue::Op(SsaOp::Mul, b, a)), (b, SsaValue::Undef)]);
    assert_eq!(program.var(), VarId(3));
}

#[test]
fn write_of_a_phi_registers_the_use() {
    let mut program = Program::new();
    let a = program.var();
    let b = program.var();
    let b0 = program.block();
    let b1 = program.block();
    let phi = program.read(b0, a).unwrap();
    assert_eq!(phi, SsaValue::Phi(PhiId(0)));
    program.write_var(b1, b, phi).unwrap();
    assert_eq!(program.phis().get(PhiId(0)).unwrap().users(), &vec![(b0, a), (b1, b)]);
}

#[test]
fn reads_of_an_open_block_make_a_phi_each() {
    let mut program = Program::new();
    let a = program.var();
    let b0 = program.block();
    assert_eq!(program.read(b0, a).unwrap(), SsaValue::Phi(PhiId(0)));
    assert_eq!(program.read(b0, a).unwrap(), SsaValue::Phi(PhiId(1)));
    assert_eq!(program.blocks().as_slice()[0].incomplete_phis().len(), 2);
}

#[test]
fn open_block_with_one_predecessor_still_gets_a_phi() {
    let mut program = Program::new();
    let a = program.var();
    let b0 = program.block();
    let b1 = program.block();
    program.write_constant(b0, a, ConstValue::Bool(true)).unwrap();
    program.add_predecessor(b1, b0).unwrap();
    assert_eq!(program.read(b1, a).unwrap(), SsaValue::Phi(PhiId(0)));
}

fn build_merge() -> (Program, SsaValue) {
    let mut program = Program::new();
    let a = program.var();
    let b0 = program.block();
    let b1 = program.block();
    let b2 = program.block();
    program.write_constant(b0, a, ConstValue::Integer(1)).unwrap();
    program.write_constant(b1, a, ConstValue::Integer(2)).unwrap();
    program.add_predecessor(b2, b0).unwrap();
    program.add_predecessor(b2, b1).unwrap();
    program.seal(b2).unwrap();
    let value = program.read(b2, a).unwrap();
    (program, value)
}

#[test]
fn equal_constructions_read_equal_values() {
    let (first, first_value) = build_merge();
    let (second, second_value) = build_merge();
    assert_eq!(first_value, second_value);
    assert_eq!(first.phis().len(), second.phis().len());
    for id in 0..first.phis().len() {
        let one = first.phis().get(PhiId(id)).unwrap();
        let other = second.phis().get(PhiId(id)).unwrap();
        assert_eq!(one.users(), other.users());
        assert_eq!(one.operands(), other.operands());
    }
}

#[test]
fn store_of_blocks_works_alone() {
    let mut blocks = rune_ssa::Blocks::new();
    let a = VarId(4);
    let b0 = blocks.block();
    assert!(blocks.contains(b0));
    assert!(!blocks.contains(BlockId(1)));
    assert!(!blocks.is_sealed(b0));
    assert!(blocks.try_get_assignment(b0, a).is_none());
    assert_eq!(
        blocks.get_assignment(b0, a).unwrap_err().into_kind(),
        ErrorKind::MissingVar { id: a }
    );
    assert!(blocks.get_assignment_mut(b0, a).is_none());
    blocks.register_assignment(b0, a, SsaValue::Undef).unwrap();
    *blocks.get_assignment_mut(b0, a).unwrap() = SsaValue::Const(ConstId(9));
    assert_eq!(blocks.get_assignment(b0, a).unwrap(), SsaValue::Const(ConstId(9)));
    assert_eq!(blocks.try_get_assignment(b0, VarId(5)), None);

    blocks.register_incomplete_phi(b0, a, SsaValue::Undef).unwrap();
    assert_eq!(blocks.take_incomplete_phis(b0), vec![(a, SsaValue::Undef)]);
    assert!(blocks.take_incomplete_phis(b0).is_empty());
    assert!(blocks.take_incomplete_phis(BlockId(7)).is_empty());

    assert_eq!(blocks.only_predecessor(b0), None);
    blocks.add_predecessor(b0, BlockId(3)).unwrap();
    assert_eq!(blocks.only_predecessor(b0), Some(BlockId(3)));
    blocks.add_predecessor(b0, BlockId(4)).unwrap();
    assert_eq!(blocks.only_predecessor(b0), None);
    assert_eq!(blocks.take_predecessors(b0), Some(vec![BlockId(3), BlockId(4)]));
    assert_eq!(blocks.take_predecessors(b0), Some(vec![]));
    assert_eq!(blocks.take_predecessors(BlockId(7)), None);
    blocks.insert_predecessors(b0, vec![BlockId(8)]);
    assert_eq!(blocks.only_predecessor(b0), Some(BlockId(8)));
    blocks.insert_predecessors(BlockId(7), vec![BlockId(8)]);

    blocks.seal(b0).unwrap();
    assert!(blocks.is_sealed(b0));
    assert!(!blocks.is_sealed(BlockId(7)));
    assert_eq!(
        blocks.seal(b0).unwrap_err().into_kind(),
        ErrorKind::BlockAlreadySealed { block_id: b0 }
    );
    assert_eq!(
        blocks.register_incomplete_phi(BlockId(7), a, SsaValue::Undef).unwrap_err().into_kind(),
        ErrorKind::MissingBlock { block_id: BlockId(7) }
    );
}

#[test]
fn error_keeps_its_kind() {
    let error = Error::new(ErrorKind::GlobalLookupNotImplemented);
    assert_eq!(error.into_kind(), ErrorKind::GlobalLookupNotImplemented);
}

#[test]
fn seal_of_a_block_that_reads_itself_can_leave_a_phi_waiting() {
    let mut program = Program::new();
    let a = program.var();
    let b0 = program.block();
    let b1 = program.block();
    let b2 = program.block();
    program.write_constant(b0, a, ConstValue::Integer(1)).unwrap();
    program.write_constant(b1, a, ConstValue::Integer(2)).unwrap();
    program.add_predecessor(b2, b0).unwrap();
    program.add_predecessor(b2, b1).unwrap();
    program.add_predecessor(b2, b2).unwrap();
    // the value that was read is not written back
    assert_eq!(program.read(b2, a).unwrap(), SsaValue::Phi(PhiId(0)));
    program.seal(b2).unwrap();
    let block = &program.blocks().as_slice()[2];
    assert!(block.sealed());
    assert_eq!(block.incomplete_phis(), &vec![(a, SsaValue::Phi(PhiId(1)))]);
    assert_eq!(
        program.phis().get(PhiId(0)).unwrap().operands(),
        &vec![(b0, a), (b1, a), (b2, a)]
    );
}

#[test]
fn reads_end_unless_sealed_blocks_without_a_value_form_a_cycle() {
    let mut program = Program::new();
    let a = program.var();
    let b = program.var();
    assert!(program.reads_end(a));
    let b0 = program.block();
    let b1 = program.block();
    program.add_predecessor(b0, b1).unwrap();
    program.add_predecessor(b1, b0).unwrap();
    assert!(program.reads_end(a));
    program.seal(b0).unwrap();
    assert!(program.reads_end(a));
    program.seal(b1).unwrap();
    assert!(!program.reads_end(a));
    assert!(!program.reads_end(b));
    program.write_var(b1, a, SsaValue::Undef).unwrap();
    assert!(program.reads_end(a));
    assert!(!program.reads_end(b));
    assert_eq!(program.read(b0, a).unwrap(), SsaValue::Undef);
}

#[test]
fn chain_of_all_blocks_to_a_missing_block_ends() {
    let mut program = Program::new();
    let a = program.var();
    let b0 = program.block();
    let b1 = program.block();
    program.add_predecessor(b1, b0).unwrap();
    program.add_predecessor(b0, BlockId(9)).unwrap();
    program.seal(b0).unwrap();
    program.seal(b1).unwrap();
    assert!(program.reads_end(a));
    assert_eq!(
        program.read(b1, a).unwrap_err().into_kind(),
        ErrorKind::MissingBlock { block_id: BlockId(9) }
    );
}

#[test]
fn store_of_phis_works_alone() {
    let mut phis = rune_ssa::Phis::default();
    let a = VarId(1);
    assert_eq!(phis.len(), 0);
    let first = phis.build(BlockId(4));
    assert_eq!(first, PhiId(0));
    assert_eq!(phis.build(BlockId(5)), PhiId(1));
    assert_eq!(phis.get(first).unwrap().block_id(), BlockId(4));
    phis.register_use(first, BlockId(4), a).unwrap();
    phis.register_use(first, BlockId(6), a).unwrap();
    phis.get_mut(first).unwrap().push_operand(BlockId(2), a);
    phis.get_mut(first).unwrap().push_operand(BlockId(3), a);
    assert_eq!(phis.operands_of(first), &[(BlockId(2), a), (BlockId(3), a)][..]);
    assert!(phis.operands_of(PhiId(1)).is_empty());
    assert_eq!(phis.take_users_of(first), vec![(BlockId(4), a), (BlockId(6), a)]);
    assert!(phis.take_users_of(first).is_empty());
    assert!(phis.take_users_of(PhiId(9)).is_empty());
    assert_eq!(
        phis.register_use(PhiId(9), BlockId(0), a).unwrap_err().into_kind(),
        ErrorKind::MissingPhi { phi_id: PhiId(9) }
    );
    assert_eq!(
        phis.get_mut(PhiId(9)).err().unwrap().into_kind(),
        ErrorKind::MissingPhi { phi_id: PhiId(9) }
    );
    assert_eq!(
        phis.get(PhiId(9)).err().unwrap().into_kind(),
        ErrorKind::MissingPhi { phi_id: PhiId(9) }
    );
}

#[test]
fn pool_of_constants_works_alone() {
    let mut consts = rune_ssa::Consts::default();
    assert!(consts.get(ConstId(0)).is_none());
    assert_eq!(consts.constant(ConstValue::Char('x')), ConstId(0));
    assert_eq!(consts.constant(ConstValue::Char('x')), ConstId(1));
    assert_eq!(consts.constant(ConstValue::String("x".to_string())), ConstId(2));
    assert_eq!(consts.get(ConstId(1)), Some(&ConstValue::Char('x')));
    assert_eq!(consts.get(ConstId(2)), Some(&ConstValue::String("x".to_string())));
    assert!(consts.get(ConstId(3)).is_none());
}

#[test]
fn default_program_is_a_new_program() {
    let mut program = Program::default();
    assert!(program.blocks().as_slice().is_empty());
    assert_eq!(program.phis().len(), 0);
    assert_eq!(program.var(), VarId(0));
    assert_eq!(program.block(), BlockId(0));
    assert!(rune_ssa::Blocks::default().as_slice().is_empty());
}
