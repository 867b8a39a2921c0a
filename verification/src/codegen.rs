//! Quadruples, temporaries and backpatching.
use vstd::prelude::*;
use crate::text::{decimal, list_text, push_char, push_decimal, push_list};

verus! {

/// An ordinary operand: a variable, a number or a temporary, or the
/// placeholder `_` of the printed quadruple.
#[derive(Debug, PartialEq, Eq)]
pub enum Operand {
    Name(String),
    Empty,
}

/// The mathematical value of an `Operand`.
pub enum OperandView {
    Name(Seq<char>),
    Empty,
}

impl View for Operand {
    type V = OperandView;

    open spec fn view(&self) -> OperandView {
        match self {
            Operand::Name(s) => OperandView::Name(s@),
            Operand::Empty => OperandView::Empty,
        }
    }
}

impl Clone for Operand {
    fn clone(&self) -> (r: Self)
        ensures
            r == *self,
    {
        match self {
            Operand::Name(s) => Operand::Name(s.clone()),
            Operand::Empty => Operand::Empty,
        }
    }
}

/// How an operand is printed.
pub open spec fn operand_text(o: OperandView) -> Seq<char> {
    match o {
        OperandView::Name(s) => s,
        OperandView::Empty => "_"@,
    }
}

impl Operand {
    /// A named operand.
    pub fn name(value: &str) -> (o: Self)
        ensures
            o@ == OperandView::Name(value@),
    {
        Operand::Name(String::from_str(value))
    }

    /// The printed form of the operand.
    pub fn to_string(&self) -> (s: String)
        ensures
            s@ == operand_text(self@),
    {
        match self {
            Operand::Name(value) => value.clone(),
            Operand::Empty => String::from_str("_"),
        }
    }

    fn push_to(&self, out: &mut String)
        ensures
            final(out)@ == old(out)@ + operand_text(self@),
    {
        match self {
            Operand::Name(value) => out.append(value.as_str()),
            Operand::Empty => out.append("_"),
        }
    }
}

/// A jump target: either waiting for backpatching, or a quadruple index.
#[derive(Clone, Copy, Debug, PartialEq, Eq, Structural)]
pub enum JumpTarget {
    Pending,
    Target(usize),
}

/// How a jump target is printed.
pub open spec fn target_text(t: JumpTarget) -> Seq<char> {
    match t {
        JumpTarget::Pending => "_"@,
        JumpTarget::Target(i) => decimal(i as nat),
    }
}

impl JumpTarget {
    /// The printed form of the target.
    pub fn to_string(&self) -> (s: String)
        ensures
            s@ == target_text(*self),
    {
        let mut out = String::new();
        self.push_to(&mut out);
        out
    }

    fn push_to(&self, out: &mut String)
        ensures
            final(out)@ == old(out)@ + target_text(*self),
    {
        match self {
            JumpTarget::Pending => out.append("_"),
            JumpTarget::Target(i) => push_decimal(out, *i),
        }
    }
}

/// A quadruple, printed as `(op, arg1, arg2, result)`.
#[derive(Debug, PartialEq, Eq)]
pub enum Quad {
    Binary { op: String, left: Operand, right: Operand, dest: Operand },
    Assign { src: Operand, dest: Operand },
    Jump { target: JumpTarget },
    JumpIf { relop: String, left: Operand, right: Operand, target: JumpTarget },
}

/// The mathematical value of a `Quad`.
pub enum QuadView {
    Binary { op: Seq<char>, left: OperandView, right: OperandView, dest: OperandView },
    Assign { src: OperandView, dest: OperandView },
    Jump { target: JumpTarget },
    JumpIf { relop: Seq<char>, left: OperandView, right: OperandView, target: JumpTarget },
}

impl View for Quad {
    type V = QuadView;

    open spec fn view(&self) -> QuadView {
        match self {
            Quad::Binary { op, left, right, dest } => QuadView::Binary {
                op: op@,
                left: left@,
                right: right@,
                dest: dest@,
            },
            Quad::Assign { src, dest } => QuadView::Assign { src: src@, dest: dest@ },
            Quad::Jump { target } => QuadView::Jump { target: *target },
            Quad::JumpIf { relop, left, right, target } => QuadView::JumpIf {
                relop: relop@,
                left: left@,
                right: right@,
                target: *target,
            },
        }
    }
}

impl Clone for Quad {
    fn clone(&self) -> (r: Self)
        ensures
            r == *self,
    {
        match self {
            Quad::Binary { op, left, right, dest } => Quad::Binary {
                op: op.clone(),
                left: left.clone(),
                right: right.clone(),
                dest: dest.clone(),
            },
            Quad::Assign { src, dest } => Quad::Assign { src: src.clone(), dest: dest.clone() },
            Quad::Jump { target } => Quad::Jump { target: *target },
            Quad::JumpIf { relop, left, right, target } => Quad::JumpIf {
                relop: relop.clone(),
                left: left.clone(),
                right: right.clone(),
                target: *target,
            },
        }
    }
}

/// How a quadruple is printed.
pub open spec fn quad_text(q: QuadView) -> Seq<char> {
    match q {
        QuadView::Binary { op, left, right, dest } => "("@ + op + ", "@ + operand_text(left)
            + ", "@ + operand_text(right) + ", "@ + operand_text(dest) + ")"@,
        QuadView::Assign { src, dest } => "(=, "@ + operand_text(src) + ", _, "@ + operand_text(
            dest,
        ) + ")"@,
        QuadView::Jump { target } => "(j, _, _, "@ + target_text(target) + ")"@,
        QuadView::JumpIf { relop, left, right, target } => "(j"@ + relop + ", "@ + operand_text(
            left,
        ) + ", "@ + operand_text(right) + ", "@ + target_text(target) + ")"@,
    }
}

/// Whether a quadruple is a jump (conditional or not).
pub open spec fn is_jump(q: QuadView) -> bool {
    q is Jump || q is JumpIf
}

/// A jump whose target still waits for backpatching.
pub open spec fn is_pending_jump(q: QuadView) -> bool {
    match q {
        QuadView::Jump { target } => target is Pending,
        QuadView::JumpIf { target, .. } => target is Pending,
        _ => false,
    }
}

/// The jump target of a jump quadruple.
pub open spec fn jump_target(q: QuadView) -> JumpTarget {
    match q {
        QuadView::Jump { target } => target,
        QuadView::JumpIf { target, .. } => target,
        _ => JumpTarget::Pending,
    }
}

/// `q` with its jump target set to `target` (non-jumps are left as they are).
pub open spec fn patch_quad(q: QuadView, target: usize) -> QuadView {
    match q {
        QuadView::Jump { .. } => QuadView::Jump { target: JumpTarget::Target(target) },
        QuadView::JumpIf { relop, left, right, .. } => QuadView::JumpIf {
            relop,
            left,
            right,
            target: JumpTarget::Target(target),
        },
        _ => q,
    }
}

impl Quad {
    /// The printed form of the quadruple.
    pub fn to_string(&self) -> (s: String)
        ensures
            s@ == quad_text(self@),
    {
        let mut out = String::new();
        self.push_to(&mut out);
        assert(out@ =~= quad_text(self@));
        out
    }

    fn push_to(&self, out: &mut String)
        ensures
            final(out)@ =~= old(out)@ + quad_text(self@),
    {
        match self {
            Quad::Binary { op, left, right, dest } => {
                out.append("(");
                out.append(op.as_str());
                out.append(", ");
                left.push_to(out);
                out.append(", ");
                right.push_to(out);
                out.append(", ");
                dest.push_to(out);
                out.append(")");
            },
            Quad::Assign { src, dest } => {
                out.append("(=, ");
                src.push_to(out);
                out.append(", _, ");
                dest.push_to(out);
                out.append(")");
            },
            Quad::Jump { target } => {
                out.append("(j, _, _, ");
                target.push_to(out);
                out.append(")");
            },
            Quad::JumpIf { relop, left, right, target } => {
                out.append("(j");
                out.append(relop.as_str());
                out.append(", ");
                left.push_to(out);
                out.append(", ");
                right.push_to(out);
                out.append(", ");
                target.push_to(out);
                out.append(")");
            },
        }
    }
}

/// Attribute of an arithmetic expression: where its value is held.
#[derive(Debug, PartialEq, Eq)]
pub struct ExprAttr {
    pub place: Operand,
}

impl View for ExprAttr {
    type V = OperandView;

    open spec fn view(&self) -> OperandView {
        self.place@
    }
}

/// Attribute of a boolean expression: the true chain and the false chain,
/// the indices of the jumps that still wait for a target.
#[derive(Debug, PartialEq, Eq)]
pub struct BoolAttr {
    pub tc: Vec<usize>,
    pub fc: Vec<usize>,
}

/// The mathematical value of a `BoolAttr`.
#[verifier::ext_equal]
pub struct BoolAttrView {
    pub tc: Seq<usize>,
    pub fc: Seq<usize>,
}

impl View for BoolAttr {
    type V = BoolAttrView;

    open spec fn view(&self) -> BoolAttrView {
        BoolAttrView { tc: self.tc@, fc: self.fc@ }
    }
}

/// The quadruple generator: the quadruples emitted so far and the number
/// of temporaries handed out.
#[derive(Debug)]
pub struct CodeGen {
    pub quads: Vec<Quad>,
    temp_count: usize,
}

/// The mathematical value of a `CodeGen`.
#[verifier::ext_equal]
pub struct CodeGenView {
    pub quads: Seq<QuadView>,
    pub temps: nat,
}

/// The views of a sequence of quadruples.
pub open spec fn quad_views(qs: Seq<Quad>) -> Seq<QuadView> {
    qs.map_values(|q: Quad| q@)
}

impl View for CodeGen {
    type V = CodeGenView;

    closed spec fn view(&self) -> CodeGenView {
        CodeGenView { quads: quad_views(self.quads@), temps: self.temp_count as nat }
    }
}


/// The name of the `n`-th temporary: `t1`, `t2`, ...
pub open spec fn temp_name(n: nat) -> Seq<char> {
    "t"@ + decimal(n)
}

/// The message of a backpatch naming an index past the end.
pub open spec fn missing_quad_message(index: usize) -> Seq<char> {
    "回填错误: 四元组编号 "@ + decimal(index as nat) + " 不存在"@
}

/// The message of a backpatch naming a quadruple that is not a jump.
pub open spec fn not_jump_message(index: usize) -> Seq<char> {
    "回填错误: 四元组编号 "@ + decimal(index as nat) + " 不是跳转指令"@
}

/// Backpatching `list` with `target`, entry by entry from the front: the
/// quadruples afterwards, and the error at the first entry that is out of
/// range or not a jump (the entries before it stay patched).
pub open spec fn backpatch_quads(quads: Seq<QuadView>, list: Seq<usize>, target: usize) -> (
    Seq<QuadView>,
    Result<(), Seq<char>>,
)
    decreases list.len(),
{
    if list.len() == 0 {
        (quads, Ok(()))
    } else {
        let i = list[0];
        if i >= quads.len() {
            (quads, Err(missing_quad_message(i)))
        } else if !is_jump(quads[i as int]) {
            (quads, Err(not_jump_message(i)))
        } else {
            backpatch_quads(
                quads.update(i as int, patch_quad(quads[i as int], target)),
                list.drop_first(),
                target,
            )
        }
    }
}

/// Every entry of `list` names a jump among `quads`.
pub open spec fn all_jumps(quads: Seq<QuadView>, list: Seq<usize>) -> bool {
    forall|k: int|
        #![trigger list[k]]
        0 <= k < list.len() ==> list[k] < quads.len() && is_jump(quads[list[k] as int])
}

/// Whether index `i` occurs in the chain `list`.
pub open spec fn in_chain(list: Seq<usize>, i: int) -> bool {
    exists|k: int| 0 <= k < list.len() && list[k] as int == i
}

/// The quadruples after a successful backpatch: each listed jump gets the
/// target, every other quadruple stays.
pub open spec fn patched(quads: Seq<QuadView>, list: Seq<usize>, target: usize) -> Seq<QuadView> {
    Seq::new(
        quads.len(),
        |i: int|
            if in_chain(list, i) {
                patch_quad(quads[i], target)
            } else {
                quads[i]
            },
    )
}

/// Patching keeps a quadruple's kind.
proof fn lemma_patch_keeps_jump(q: QuadView, target: usize)
    ensures
        is_jump(patch_quad(q, target)) == is_jump(q),
{
}

/// Backpatching succeeds exactly when every entry names a jump, and then
/// sets the target of exactly the listed jumps.
pub proof fn lemma_backpatch_quads(quads: Seq<QuadView>, list: Seq<usize>, target: usize)
    ensures
        backpatch_quads(quads, list, target).1 is Ok <==> all_jumps(quads, list),
        all_jumps(quads, list) ==> backpatch_quads(quads, list, target).0 =~= patched(
            quads,
            list,
            target,
        ),
    decreases list.len(),
{
    if list.len() > 0 {
        let i = list[0];
        if i < quads.len() && is_jump(quads[i as int]) {
            let q2 = quads.update(i as int, patch_quad(quads[i as int], target));
            let rest = list.drop_first();
            lemma_backpatch_quads(q2, rest, target);
            lemma_patch_keeps_jump(quads[i as int], target);
            assert forall|x: int| 0 <= x < quads.len() implies is_jump(#[trigger] q2[x]) == is_jump(
                quads[x],
            ) by {
                if x == i {
                } else {
                }
            }
            if all_jumps(quads, list) {
                assert forall|k: int| 0 <= k < rest.len() implies rest[k] < q2.len() && is_jump(
                    #[trigger] q2[rest[k] as int],
                ) by {
                    assert(rest[k] == list[k + 1]);
                    assert(list[k + 1] < quads.len() && is_jump(quads[list[k + 1] as int]));
                    assert(is_jump(q2[list[k + 1] as int]) == is_jump(quads[list[k + 1] as int]));
                }
                assert(all_jumps(q2, rest));
            }
            if all_jumps(q2, rest) {
                assert forall|k: int|
                    #![trigger list[k]]
                    0 <= k < list.len() implies list[k] < quads.len() && is_jump(
                        quads[list[k] as int],
                    ) by {
                    if k > 0 {
                        assert(list[k] == rest[k - 1]);
                        assert(rest[k - 1] < q2.len() && is_jump(q2[rest[k - 1] as int]));
                        assert(is_jump(q2[rest[k - 1] as int]) == is_jump(
                            quads[rest[k - 1] as int],
                        ));
                    } else {
                        assert(list[k] == i);
                    }
                }
                assert(all_jumps(quads, list));
            }
            if all_jumps(quads, list) {
                assert forall|j: int| 0 <= j < quads.len() implies #[trigger] patched(
                    q2,
                    rest,
                    target,
                )[j] == patched(quads, list, target)[j] by {
                    let in_list = in_chain(list, j);
                    let in_rest = in_chain(rest, j);
                    if j == i {
                        assert(list[0] as int == j);
                        assert(in_list);
                        assert(q2[j] == patch_quad(quads[j], target));
                        assert(patch_quad(patch_quad(quads[j], target), target) == patch_quad(
                            quads[j],
                            target,
                        ));
                    } else {
                        assert(q2[j] == quads[j]);
                        if in_rest {
                            let k = choose|k: int| 0 <= k < rest.len() && rest[k] as int == j;
                            assert(list[k + 1] == rest[k]);
                            assert(in_list);
                        }
                        if in_list {
                            let k = choose|k: int| 0 <= k < list.len() && list[k] as int == j;
                            assert(k > 0);
                            assert(rest[k - 1] == list[k]);
                            assert(in_rest);
                        }
                        assert(in_list == in_rest);
                    }
                }
            }
        } else {
            assert(list[0] == i);
            assert(!all_jumps(quads, list));
        }
    } else {
        assert(patched(quads, list, target) =~= quads);
    }
}

impl Default for CodeGen {
    fn default() -> (cg: Self)
        ensures
            cg@.quads.len() == 0,
            cg@.temps == 0,
    {
        CodeGen::new()
    }
}

impl CodeGen {
    /// An empty generator.
    pub fn new() -> (cg: Self)
        ensures
            cg@.quads == Seq::<QuadView>::empty(),
            cg@.temps == 0,
    {
        let cg = CodeGen { quads: Vec::new(), temp_count: 0 };
        assert(cg@.quads =~= Seq::<QuadView>::empty());
        cg
    }

    /// A fresh temporary: `t1` first, then `t2`, and so on.
    pub fn new_temp(&mut self) -> (t: Operand)
        requires
            old(self)@.temps < usize::MAX,
        ensures
            final(self)@.temps == old(self)@.temps + 1,
            final(self)@.quads == old(self)@.quads,
            t@ == OperandView::Name(temp_name(final(self)@.temps)),
    {
        self.temp_count = self.temp_count + 1;
        let mut name = String::from_str("t");
        push_decimal(&mut name, self.temp_count);
        Operand::Name(name)
    }

    /// The quadruples emitted so far, as the public `quads` field holds them.
    pub fn quad_list(&self) -> (r: &Vec<Quad>)
        ensures
            quad_views(r@) == self@.quads,
    {
        &self.quads
    }

    /// The index the next emitted quadruple will get.
    pub fn next_quad(&self) -> (n: usize)
        ensures
            n == self@.quads.len(),
    {
        self.quads.len()
    }

    /// Appends a quadruple and returns its index.
    pub fn emit(&mut self, quad: Quad) -> (index: usize)
        ensures
            index == old(self)@.quads.len(),
            final(self)@.quads == old(self)@.quads.push(quad@),
            final(self)@.temps == old(self)@.temps,
    {
        let index = self.quads.len();
        self.quads.push(quad);
        assert(quad_views(self.quads@) =~= quad_views(old(self).quads@).push(quad@));
        index
    }

    /// A chain holding one index.
    pub fn makelist(index: usize) -> (list: Vec<usize>)
        ensures
            list@ == seq![index],
    {
        let mut list = Vec::new();
        list.push(index);
        assert(list@ =~= seq![index]);
        list
    }

    /// The concatenation of two chains.
    pub fn merge(left: Vec<usize>, right: Vec<usize>) -> (list: Vec<usize>)
        ensures
            list@ == left@ + right@,
    {
        let mut left = left;
        let mut right = right;
        left.append(&mut right);
        left
    }

    /// Sets the target of every quadruple in `list` to `target`. Fails at the
    /// first entry that is out of range or not a jump; the entries before it
    /// stay patched.
    pub fn backpatch(&mut self, list: &[usize], target: usize) -> (r: Result<(), String>)
        ensures
            final(self)@.temps == old(self)@.temps,
            final(self)@.quads == backpatch_quads(old(self)@.quads, list@, target).0,
            match backpatch_quads(old(self)@.quads, list@, target).1 {
                Ok(()) => r is Ok,
                Err(m) => r matches Err(e) && e@ == m,
            },
            r is Ok <==> all_jumps(old(self)@.quads, list@),
            r is Ok ==> final(self)@.quads == patched(old(self)@.quads, list@, target),
    {
        proof {
            lemma_backpatch_quads(self@.quads, list@, target);
        }
        let n = list.len();
        let mut k: usize = 0;
        assert(list@.skip(0) =~= list@);
        while k < n
            invariant
                n == list@.len(),
                k <= n,
                self@.temps == old(self)@.temps,
                backpatch_quads(old(self)@.quads, list@, target).1 is Ok <==> all_jumps(
                    old(self)@.quads,
                    list@,
                ),
                backpatch_quads(self@.quads, list@.skip(k as int), target) == backpatch_quads(
                    old(self)@.quads,
                    list@,
                    target,
                ),
            decreases n - k,
        {
            let index = list[k];
            assert(list@.skip(k as int)[0] == index);
            assert(list@.skip(k as int).drop_first() =~= list@.skip(k + 1));
            if index >= self.quads.len() {
                let mut msg = String::from_str("回填错误: 四元组编号 ");
                push_decimal(&mut msg, index);
                msg.append(" 不存在");
                return Err(msg);
            }
            let patched_quad = match &self.quads[index] {
                Quad::Jump { .. } => Quad::Jump { target: JumpTarget::Target(target) },
                Quad::JumpIf { relop, left, right, .. } => Quad::JumpIf {
                    relop: relop.clone(),
                    left: left.clone(),
                    right: right.clone(),
                    target: JumpTarget::Target(target),
                },
                Quad::Binary { .. } | Quad::Assign { .. } => {
                    let mut msg = String::from_str("回填错误: 四元组编号 ");
                    push_decimal(&mut msg, index);
                    msg.append(" 不是跳转指令");
                    return Err(msg);
                },
            };
            let ghost before = self@.quads;
            self.quads.set(index, patched_quad);
            assert(self@.quads =~= before.update(
                index as int,
                patch_quad(before[index as int], target),
            ));
            k = k + 1;
        }
        assert(list@.skip(n as int) =~= Seq::<usize>::empty());
        Ok(())
    }
}

/// The listing of `qs`: one line `i: (op, arg1, arg2, result)` per quadruple.
pub open spec fn quad_lines(qs: Seq<QuadView>) -> Seq<char>
    decreases qs.len(),
{
    if qs.len() == 0 {
        Seq::empty()
    } else {
        quad_lines(qs.drop_last()) + decimal((qs.len() - 1) as nat) + ": "@ + quad_text(qs.last())
            + "\n"@
    }
}

/// The printed quadruple listing of a generator.
pub open spec fn quads_listing(qs: Seq<QuadView>) -> Seq<char> {
    "Quadruples:\n"@ + quad_lines(qs)
}

/// The printed result of a boolean expression: the listing, a blank line,
/// then the true and false chains.
pub open spec fn bool_result_text(qs: Seq<QuadView>, attr: BoolAttrView) -> Seq<char> {
    quads_listing(qs) + "\n"@ + "TC = "@ + list_text(attr.tc) + "\n"@ + "FC = "@ + list_text(
        attr.fc,
    ) + "\n"@
}

/// The quadruple listing, headed `Quadruples:`.
pub fn format_quads(codegen: &CodeGen) -> (s: String)
    ensures
        s@ == quads_listing(codegen@.quads),
{
    let mut out = String::from_str("Quadruples:\n");
    let n = codegen.quads.len();
    let mut i: usize = 0;
    while i < n
        invariant
            n == codegen.quads@.len(),
            i <= n,
            out@ == "Quadruples:\n"@ + quad_lines(codegen@.quads.take(i as int)),
        decreases n - i,
    {
        push_decimal(&mut out, i);
        out.append(": ");
        codegen.quads[i].push_to(&mut out);
        out.append("\n");
        proof {
            let t = codegen@.quads.take(i + 1);
            assert(t.drop_last() =~= codegen@.quads.take(i as int));
            assert(t.last() == codegen.quads@[i as int]@);
            assert(out@ =~= "Quadruples:\n"@ + quad_lines(t));
        }
        i = i + 1;
    }
    assert(codegen@.quads.take(n as int) =~= codegen@.quads);
    out
}

/// The quadruple listing followed by the true and false chains.
pub fn format_bool_result(codegen: &CodeGen, attr: &BoolAttr) -> (s: String)
    ensures
        s@ == bool_result_text(codegen@.quads, attr@),
{
    let mut out = format_quads(codegen);
    out.append("\n");
    out.append("TC = ");
    push_list(&mut out, attr.tc.as_slice());
    out.append("\n");
    out.append("FC = ");
    push_list(&mut out, attr.fc.as_slice());
    out.append("\n");
    assert(out@ =~= bool_result_text(codegen@.quads, attr@));
    out
}

} // verus!
