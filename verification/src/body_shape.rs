//! A summary of the language features that a body uses, for choosing engines.

use vstd::prelude::*;

use crate::body_analysis;
use crate::body_analysis::body_has_loops;
use crate::ir::{BinOp, Body, Operand, Rvalue, Stmt, Ty};
use crate::models::Models;

verus! {

/// The language features that a body uses.
#[derive(Clone, Copy, Debug, PartialEq, Eq, Structural)]
pub struct BodyShape {
    /// Calls of transcendental functions.
    pub has_transcendental_math: bool,
    /// Fields, type tests or unknown values.
    pub has_heap_ops: bool,
    pub has_string_ops: bool,
    pub has_array_ops: bool,
    pub has_loops: bool,
    /// Products of two variables.
    pub has_nonlinear_int: bool,
    pub has_float_types: bool,
    pub num_vars: usize,
    pub num_blocks: usize,
}

impl Default for BodyShape {
    fn default() -> (r: Self)
        ensures
            r == (BodyShape {
                has_transcendental_math: false,
                has_heap_ops: false,
                has_string_ops: false,
                has_array_ops: false,
                has_loops: false,
                has_nonlinear_int: false,
                has_float_types: false,
                num_vars: 0,
                num_blocks: 0,
            }),
    {
        BodyShape {
            has_transcendental_math: false,
            has_heap_ops: false,
            has_string_ops: false,
            has_array_ops: false,
            has_loops: false,
            has_nonlinear_int: false,
            has_float_types: false,
            num_vars: 0,
            num_blocks: 0,
        }
    }
}

/// Does the statement touch the heap?
pub open spec fn heap_op(s: Stmt) -> bool {
    match s {
        Stmt::Assign(_, rv) => rv is GetStatic || rv is GetField || rv is InstanceOf || rv is Havoc,
        Stmt::PutField { .. } | Stmt::PutStatic(_, _) => true,
        _ => false,
    }
}

/// Does the statement call a method on strings?
pub open spec fn string_op(m: Models, s: Stmt) -> bool {
    s matches Stmt::Assign(_, Rvalue::Call { target, .. }) && m.owns_strings(target.class@)
}

/// Does the statement read, write or create an array?
pub open spec fn array_op(s: Stmt) -> bool {
    match s {
        Stmt::Assign(_, rv) => rv is ArrayLoad || rv is ArrayLength || rv is NewArray,
        Stmt::ArrayStore { .. } => true,
        _ => false,
    }
}

/// Does the statement multiply two variables?
pub open spec fn nonlinear(s: Stmt) -> bool {
    s matches Stmt::Assign(_, Rvalue::Bin(BinOp::Mul, Operand::Var(_), Operand::Var(_)))
}

/// Is the variable of a floating-point type?
pub open spec fn float_ty(ty: Ty) -> bool {
    ty == Ty::Float || ty == Ty::Double
}

/// The features of one statement, added to those found so far.
pub open spec fn with_stmt(shape: BodyShape, m: Models, s: Stmt) -> BodyShape {
    let t = body_analysis::transcends(m, s);
    BodyShape {
        has_transcendental_math: shape.has_transcendental_math || t,
        has_float_types: shape.has_float_types || t,
        has_heap_ops: shape.has_heap_ops || heap_op(s),
        has_string_ops: shape.has_string_ops || string_op(m, s),
        has_array_ops: shape.has_array_ops || array_op(s),
        has_nonlinear_int: shape.has_nonlinear_int || nonlinear(s),
        ..shape
    }
}

fn add_stmt(shape: BodyShape, m: &Models, s: &Stmt) -> (r: BodyShape)
    ensures
        r == with_stmt(shape, *m, *s),
{
    let mut r = shape;
    match s {
        Stmt::Assign(_, rv) => match rv {
            Rvalue::Call { target, .. } => {
                if m.is_transcendental_math(target.class.as_str(), target.name.as_str()) {
                    r.has_transcendental_math = true;
                    r.has_float_types = true;
                }
                if m.is_str_owner(target.class.as_str()) {
                    r.has_string_ops = true;
                }
            },
            Rvalue::GetStatic(_) | Rvalue::GetField { .. } | Rvalue::InstanceOf { .. }
            | Rvalue::Havoc(_) => {
                r.has_heap_ops = true;
            },
            Rvalue::ArrayLoad { .. } | Rvalue::ArrayLength(_) | Rvalue::NewArray { .. } => {
                r.has_array_ops = true;
            },
            Rvalue::Bin(BinOp::Mul, Operand::Var(_), Operand::Var(_)) => {
                r.has_nonlinear_int = true;
            },
            _ => {},
        },
        Stmt::PutField { .. } | Stmt::PutStatic(_, _) => {
            r.has_heap_ops = true;
        },
        Stmt::ArrayStore { .. } => {
            r.has_array_ops = true;
        },
        _ => {},
    }
    r
}

/// The features of the first `n` statements of a list.
pub open spec fn with_stmts(shape: BodyShape, m: Models, stmts: Seq<Stmt>, n: nat) -> BodyShape
    decreases n,
{
    if n == 0 {
        shape
    } else {
        with_stmt(with_stmts(shape, m, stmts, (n - 1) as nat), m, stmts[n - 1])
    }
}

/// The features of the first `n` blocks.
pub open spec fn with_blocks(shape: BodyShape, m: Models, body: Body, n: nat) -> BodyShape
    decreases n,
{
    if n == 0 {
        shape
    } else {
        let stmts = body.blocks@[n - 1].stmts@;
        with_stmts(with_blocks(shape, m, body, (n - 1) as nat), m, stmts, stmts.len())
    }
}

/// What is known of a body before its statements are looked at.
pub open spec fn outline(body: Body) -> BodyShape {
    BodyShape {
        has_transcendental_math: false,
        has_heap_ops: false,
        has_string_ops: false,
        has_array_ops: false,
        has_loops: exists|i: int|
            0 <= i < body.blocks@.len() && #[trigger] body_analysis::goes_back(body, i),
        has_nonlinear_int: false,
        has_float_types: exists|i: int|
            0 <= i < body.vars@.len() && float_ty((#[trigger] body.vars@[i]).ty),
        num_vars: body.vars@.len() as usize,
        num_blocks: body.blocks@.len() as usize,
    }
}

/// The features that a body uses.
pub open spec fn shape_of(body: Body, m: Models) -> BodyShape {
    with_blocks(outline(body), m, body, body.blocks@.len())
}

/// The features that a body uses.
pub fn analyze(body: &Body, m: &Models) -> (r: BodyShape)
    requires
        body.blocks@.len() <= u32::MAX,
    ensures
        r == shape_of(*body, *m),
{
    let mut float_types = false;
    let mut i: usize = 0;
    while i < body.vars.len()
        invariant
            i <= body.vars@.len(),
            float_types <==> exists|j: int|
                0 <= j < i && float_ty((#[trigger] body.vars@[j]).ty),
        decreases body.vars@.len() - i,
    {
        if matches!(body.vars[i].ty, Ty::Float | Ty::Double) {
            float_types = true;
        }
        i += 1;
    }
    let mut shape = BodyShape {
        has_transcendental_math: false,
        has_heap_ops: false,
        has_string_ops: false,
        has_array_ops: false,
        has_loops: body_has_loops(body),
        has_nonlinear_int: false,
        has_float_types: float_types,
        num_vars: body.vars.len(),
        num_blocks: body.blocks.len(),
    };
    let ghost start = outline(*body);
    let mut i: usize = 0;
    while i < body.blocks.len()
        invariant
            i <= body.blocks@.len(),
            shape == with_blocks(start, *m, *body, i as nat),
        decreases body.blocks@.len() - i,
    {
        let b = &body.blocks[i];
        let ghost before = shape;
        let mut j: usize = 0;
        while j < b.stmts.len()
            invariant
                j <= b.stmts@.len(),
                shape == with_stmts(before, *m, b.stmts@, j as nat),
            decreases b.stmts@.len() - j,
        {
            shape = add_stmt(shape, m, &b.stmts[j]);
            j += 1;
        }
        i += 1;
    }
    shape
}

impl BodyShape {
    /// Is the body one for real arithmetic: transcendental functions or floating
    /// point, and no heap?
    pub open spec fn for_nra(self) -> bool {
        (self.has_transcendental_math || self.has_float_types) && !self.has_heap_ops
    }

    /// Is the body one for real arithmetic?
    pub fn suitable_for_nra(&self) -> (r: bool)
        ensures
            r == self.for_nra(),
    {
        (self.has_transcendental_math || self.has_float_types) && !self.has_heap_ops
    }

    /// Is the body one for the engines that prove with simple encodings?
    pub fn suitable_for_proving(&self) -> (r: bool)
        ensures
            r == !self.has_heap_ops,
    {
        !self.has_heap_ops
    }
}

/// A feature is reported when, and only when, some statement of the body has it.
pub proof fn law_shape_reports_what_occurs(body: Body, m: Models)
    ensures
        shape_of(body, m).has_heap_ops <==> body_analysis::some_stmt(body, |s: Stmt| heap_op(s)),
        shape_of(body, m).has_transcendental_math <==> body_analysis::some_stmt(
            body,
            |s: Stmt| body_analysis::transcends(m, s),
        ),
        shape_of(body, m).has_array_ops <==> body_analysis::some_stmt(body, |s: Stmt| array_op(s)),
        shape_of(body, m).has_nonlinear_int <==> body_analysis::some_stmt(
            body,
            |s: Stmt| nonlinear(s),
        ),
        shape_of(body, m).has_string_ops <==> body_analysis::some_stmt(
            body,
            |s: Stmt| string_op(m, s),
        ),
{
    lemma_blocks(outline(body), m, body, body.blocks@.len());
    let r = shape_of(body, m);
    let n = body.blocks@.len() as int;
    lemma_among(body, |s: Stmt| heap_op(s));
    lemma_among(body, |s: Stmt| body_analysis::transcends(m, s));
    lemma_among(body, |s: Stmt| array_op(s));
    lemma_among(body, |s: Stmt| nonlinear(s));
    lemma_among(body, |s: Stmt| string_op(m, s));
}

/// Does some statement of the first `n` blocks satisfy `f`?
spec fn among(body: Body, f: spec_fn(Stmt) -> bool, n: int) -> bool {
    exists|i: int, j: int|
        0 <= i < n && 0 <= j < body.blocks@[i].stmts@.len() && f(
            #[trigger] body.blocks@[i].stmts@[j],
        )
}

proof fn lemma_among(body: Body, f: spec_fn(Stmt) -> bool)
    ensures
        among(body, f, body.blocks@.len() as int) == body_analysis::some_stmt(body, f),
{
}

spec fn among_list(stmts: Seq<Stmt>, f: spec_fn(Stmt) -> bool, n: int) -> bool {
    exists|j: int| 0 <= j < n && f(#[trigger] stmts[j])
}

proof fn lemma_list(shape: BodyShape, m: Models, stmts: Seq<Stmt>, n: nat)
    requires
        n <= stmts.len(),
    ensures
        ({
            let r = with_stmts(shape, m, stmts, n);
            &&& r.has_heap_ops == (shape.has_heap_ops || among_list(
                stmts,
                |s: Stmt| heap_op(s),
                n as int,
            ))
            &&& r.has_transcendental_math == (shape.has_transcendental_math || among_list(
                stmts,
                |s: Stmt| body_analysis::transcends(m, s),
                n as int,
            ))
            &&& r.has_array_ops == (shape.has_array_ops || among_list(
                stmts,
                |s: Stmt| array_op(s),
                n as int,
            ))
            &&& r.has_nonlinear_int == (shape.has_nonlinear_int || among_list(
                stmts,
                |s: Stmt| nonlinear(s),
                n as int,
            ))
            &&& r.has_string_ops == (shape.has_string_ops || among_list(
                stmts,
                |s: Stmt| string_op(m, s),
                n as int,
            ))
        }),
    decreases n,
{
    if n > 0 {
        lemma_list(shape, m, stmts, (n - 1) as nat);
        lemma_list_step(stmts, |s: Stmt| heap_op(s), n as int);
        lemma_list_step(stmts, |s: Stmt| body_analysis::transcends(m, s), n as int);
        lemma_list_step(stmts, |s: Stmt| array_op(s), n as int);
        lemma_list_step(stmts, |s: Stmt| nonlinear(s), n as int);
        lemma_list_step(stmts, |s: Stmt| string_op(m, s), n as int);
    }
}

proof fn lemma_list_step(stmts: Seq<Stmt>, f: spec_fn(Stmt) -> bool, n: int)
    requires
        0 < n <= stmts.len(),
    ensures
        among_list(stmts, f, n) == (among_list(stmts, f, n - 1) || f(stmts[n - 1])),
{
    if f(stmts[n - 1]) {
        assert(among_list(stmts, f, n));
    }
    if among_list(stmts, f, n) {
        let j = choose|j: int| 0 <= j < n && f(#[trigger] stmts[j]);
        assert(j == n - 1 || among_list(stmts, f, n - 1));
    }
    if among_list(stmts, f, n - 1) {
        let j = choose|j: int| 0 <= j < n - 1 && f(#[trigger] stmts[j]);
        assert(0 <= j < n && f(stmts[j]));
    }
}

proof fn lemma_block_step(body: Body, f: spec_fn(Stmt) -> bool, n: int)
    requires
        0 < n <= body.blocks@.len(),
    ensures
        among(body, f, n) == (among(body, f, n - 1) || among_list(
            body.blocks@[n - 1].stmts@,
            f,
            body.blocks@[n - 1].stmts@.len() as int,
        )),
{
    let stmts = body.blocks@[n - 1].stmts@;
    let k = stmts.len() as int;
    if among(body, f, n) {
        let (i, j) = choose|i: int, j: int|
            0 <= i < n && 0 <= j < body.blocks@[i].stmts@.len() && f(
                #[trigger] body.blocks@[i].stmts@[j],
            );
        if i == n - 1 {
            assert(f(stmts[j]));
            assert(among_list(stmts, f, k));
        } else {
            assert(f(body.blocks@[i].stmts@[j]));
            assert(among(body, f, n - 1));
        }
    }
    if among_list(stmts, f, k) {
        let j = choose|j: int| 0 <= j < k && f(#[trigger] stmts[j]);
        assert(f(body.blocks@[n - 1].stmts@[j]));
        assert(among(body, f, n));
    }
    if among(body, f, n - 1) {
        let (i, j) = choose|i: int, j: int|
            0 <= i < n - 1 && 0 <= j < body.blocks@[i].stmts@.len() && f(
                #[trigger] body.blocks@[i].stmts@[j],
            );
        assert(f(body.blocks@[i].stmts@[j]));
        assert(among(body, f, n));
    }
}

proof fn lemma_blocks(shape: BodyShape, m: Models, body: Body, n: nat)
    requires
        n <= body.blocks@.len(),
        !shape.has_heap_ops,
        !shape.has_transcendental_math,
        !shape.has_array_ops,
        !shape.has_nonlinear_int,
        !shape.has_string_ops,
    ensures
        ({
            let r = with_blocks(shape, m, body, n);
            &&& r.has_heap_ops == among(body, |s: Stmt| heap_op(s), n as int)
            &&& r.has_transcendental_math == among(
                body,
                |s: Stmt| body_analysis::transcends(m, s),
                n as int,
            )
            &&& r.has_array_ops == among(body, |s: Stmt| array_op(s), n as int)
            &&& r.has_nonlinear_int == among(body, |s: Stmt| nonlinear(s), n as int)
            &&& r.has_string_ops == among(body, |s: Stmt| string_op(m, s), n as int)
        }),
    decreases n,
{
    if n > 0 {
        lemma_blocks(shape, m, body, (n - 1) as nat);
        let stmts = body.blocks@[n - 1].stmts@;
        lemma_list(with_blocks(shape, m, body, (n - 1) as nat), m, stmts, stmts.len());
        lemma_block_step(body, |s: Stmt| heap_op(s), n as int);
        lemma_block_step(body, |s: Stmt| body_analysis::transcends(m, s), n as int);
        lemma_block_step(body, |s: Stmt| array_op(s), n as int);
        lemma_block_step(body, |s: Stmt| nonlinear(s), n as int);
        lemma_block_step(body, |s: Stmt| string_op(m, s), n as int);
    }
}

} // verus!
