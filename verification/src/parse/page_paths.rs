//! The paths that content draws.

use super::collector::CollectorOutput;
use super::collector::CollectorView;
use super::collector::PathOp;
use super::forms;
use super::forms::close_form;
use super::forms::find_form;
use super::forms::find_xobject;
use super::forms::OpenForm;
use super::forms::MAX_FORM_XOBJECT_DEPTH;
use super::forms::MAX_XOBJECT_INVOCATIONS_PER_PAGE;
use super::images;
use super::images::first_name;
use super::numbers;
use super::numbers::transform_from_operands;
use super::page_geometry::PageGeometry;
use crate::error::Error;
use crate::error::ErrorView;
use crate::error::FileError;
use crate::float::Float;
use crate::pdf::content;
use crate::pdf::content::read_operations;
use crate::pdf::file::FileView;
use crate::pdf::file::PdfFile;
use crate::pdf::object;
use crate::pdf::object::obj_to_f64;
use crate::pdf::object::ContentView;
use crate::pdf::object::DictView;
use crate::pdf::object::ObjectId;
use crate::pdf::object::ObjectView;
use crate::pdf::object::OperationView;
use crate::pdf::object::PdfContent;
use crate::pdf::object::PdfDictionary;
use crate::pdf::object::PdfObject;
use crate::pdf::object::PdfOperation;
use crate::strings;
use crate::transform::Transform;
use crate::types;
use crate::types::Curve;
use crate::types::Line;
use crate::types::Point;
use crate::types::RectObject;
use vstd::prelude::*;

verus! {

/// The number that an operand is, if it is there.
pub open spec fn operand(operands: Seq<ObjectView>, at: int) -> Option<Float> {
    if 0 <= at < operands.len() {
        object::number(operands[at])
    } else {
        None
    }
}

/// The point that two operands make up.
pub open spec fn operand_point(operands: Seq<ObjectView>, at: int) -> Option<Point> {
    match (operand(operands, at), operand(operands, at + 1)) {
        (Some(x), Some(y)) => Some(Point { x, y }),
        _ => None,
    }
}

/// The path with its last part closed, unless it is empty, closed or a rectangle.
pub open spec fn closed_path(path: Seq<PathOp>) -> Seq<PathOp> {
    if path.len() == 0 || path.last() is Close || path.last() is Rect {
        path
    } else {
        path.push(PathOp::Close)
    }
}

/// A closed path is not closed again.
pub proof fn law_close_once(path: Seq<PathOp>)
    ensures
        closed_path(closed_path(path)) == closed_path(path),
{
}

/// How far the reading of content has come: the matrix and those saved, the path under
/// construction with its last point and its first, what has been drawn, and how many
/// XObjects may still be used.
#[verifier::ext_equal]
pub struct Tracing {
    pub ctm: Transform,
    pub saved: Seq<Transform>,
    pub path: Seq<PathOp>,
    pub current: Option<Point>,
    pub begin: Option<Point>,
    pub output: CollectorView,
    pub budget: nat,
}

/// How an operator paints the path: whether it closes it first, strokes it and fills it.
pub open spec fn painting(operator: Seq<char>) -> Option<(bool, bool, bool)> {
    if operator == "S"@ {
        Some((false, true, false))
    } else if operator == "s"@ {
        Some((true, true, false))
    } else if operator == "F"@ || operator == "f"@ || operator == "f*"@ {
        Some((false, false, true))
    } else if operator == "B"@ || operator == "B*"@ {
        Some((false, true, true))
    } else if operator == "b"@ || operator == "b*"@ {
        Some((true, true, true))
    } else {
        None
    }
}

/// The path with a curve behind it.
pub open spec fn curved(s: Tracing, c1: Point, c2: Point, p: Point) -> Tracing {
    Tracing {
        path: s.path.push(PathOp::CurveTo(c1.x, c1.y, c2.x, c2.y, p.x, p.y)),
        current: Some(p),
        ..s
    }
}

/// The path once an operator that extends it has been read.
pub open spec fn extended(s: Tracing, op: OperationView) -> Tracing {
    let p0 = operand_point(op.1, 0);
    let p2 = operand_point(op.1, 2);
    let p4 = operand_point(op.1, 4);
    if op.0 == "m"@ {
        match p0 {
            Some(p) => Tracing {
                path: s.path.push(PathOp::MoveTo(p.x, p.y)),
                current: Some(p),
                begin: Some(p),
                ..s
            },
            None => s,
        }
    } else if op.0 == "l"@ {
        match p0 {
            Some(p) => Tracing {
                path: s.path.push(PathOp::LineTo(p.x, p.y)),
                current: Some(p),
                ..s
            },
            None => s,
        }
    } else if op.0 == "c"@ {
        match (p0, p2, p4) {
            (Some(c1), Some(c2), Some(p)) => curved(s, c1, c2, p),
            _ => s,
        }
    } else if op.0 == "v"@ {
        match (s.current, p0, p2) {
            (Some(c1), Some(c2), Some(p)) => curved(s, c1, c2, p),
            _ => s,
        }
    } else if op.0 == "y"@ {
        match (p0, p2) {
            (Some(c1), Some(p)) => curved(s, c1, p, p),
            _ => s,
        }
    } else if op.0 == "h"@ {
        Tracing { path: closed_path(s.path), current: s.begin, ..s }
    } else if op.0 == "re"@ {
        match (p0, operand(op.1, 2), operand(op.1, 3)) {
            (Some(p), Some(w), Some(h)) => Tracing {
                path: s.path.push(PathOp::Rect(p.x, p.y, w, h)),
                current: Some(p),
                begin: Some(p),
                ..s
            },
            _ => s,
        }
    } else {
        s
    }
}

/// How far the reading has come once an operator other than `Do` has been read.
pub open spec fn traced(s: Tracing, op: OperationView) -> Result<Tracing, ErrorView> {
    if op.0 == "q"@ {
        Ok(Tracing { saved: s.saved.push(s.ctm), ..s })
    } else if op.0 == "Q"@ {
        Ok(Tracing { ctm: images::restored(s.saved), saved: images::popped(s.saved), ..s })
    } else if op.0 == "cm"@ {
        match numbers::matrix(op.1) {
            Ok(m) => Ok(Tracing { ctm: m.then_apply(s.ctm), ..s }),
            Err(e) => Err(e),
        }
    } else if op.0 == "n"@ {
        Ok(Tracing { path: Seq::empty(), current: None, begin: None, ..s })
    } else {
        match painting(op.0) {
            Some((close, stroke, fill)) => {
                let path = if close {
                    closed_path(s.path)
                } else {
                    s.path
                };
                Ok(
                    Tracing {
                        path: Seq::empty(),
                        current: None,
                        begin: None,
                        output: s.output.with_path(s.ctm, path, stroke, fill),
                        ..s
                    },
                )
            },
            None => Ok(extended(s, op)),
        }
    }
}

/// What is in effect when the reading of content begins.
pub open spec fn untraced(ctm: Transform, output: CollectorView, budget: nat) -> Tracing {
    Tracing {
        ctm,
        saved: Seq::empty(),
        path: Seq::empty(),
        current: None,
        begin: None,
        output,
        budget,
    }
}

/// The matrix that is in effect in a form.
pub open spec fn form_ctm(ctm: Transform, matrix: Option<Transform>) -> Transform {
    match matrix {
        Some(m) => m.then_apply(ctm),
        None => Transform::neutral().then_apply(ctm),
    }
}

/// What the use of an XObject comes to: the form to be read, if any, and how many XObjects
/// may still be used.
pub open spec fn used(
    file: FileView,
    resources: DictView,
    name: Seq<char>,
    depth: nat,
    active: Seq<ObjectId>,
    budget: nat,
) -> Result<(Option<forms::FormView>, nat), ErrorView> {
    match forms::xobject(file, resources, name) {
        Err(e) => Err(e),
        Ok(None) => Ok((None, budget)),
        Ok(Some(target)) => if budget == 0 {
            Err(ErrorView::Message("page exceeds maximum of 10000 XObject invocations"@))
        } else {
            match forms::form_at(file, resources, target, depth, active) {
                Err(e) => Err(e),
                Ok(form) => Ok((form, (budget - 1) as nat)),
            }
        },
    }
}

/// How many XObjects may still be used once one has been asked for.
pub open spec fn spent(file: FileView, resources: DictView, name: Seq<char>, budget: nat) -> nat {
    if forms::xobject(file, resources, name) matches Ok(Some(_)) && budget > 0 {
        (budget - 1) as nat
    } else {
        budget
    }
}

/// The ids of the forms being read once an XObject could not be used.
pub open spec fn left_by(
    file: FileView,
    resources: DictView,
    name: Seq<char>,
    depth: nat,
    active: Seq<ObjectId>,
    budget: nat,
) -> Seq<ObjectId> {
    match forms::xobject(file, resources, name) {
        Ok(Some(target)) => if budget > 0 {
            forms::left_active_at(file, resources, target, depth, active)
        } else {
            active
        },
        _ => active,
    }
}

/// How far the reading has come after the first `n` operations.
pub open spec fn walked(
    file: FileView,
    ops: Seq<OperationView>,
    n: nat,
    resources: DictView,
    depth: nat,
    active: Seq<ObjectId>,
    start: Tracing,
) -> Result<Tracing, forms::Failure<Tracing>>
    decreases MAX_FORM_XOBJECT_DEPTH - depth, n,
{
    if n == 0 || n > ops.len() {
        Ok(start)
    } else {
        let op = ops[n - 1];
        match walked(file, ops, (n - 1) as nat, resources, depth, active, start) {
            Err(e) => Err(e),
            Ok(s) => if op.0 == "Do"@ {
                match images::operand_name(op) {
                    None => Ok(s),
                    Some(name) => match used(file, resources, name, depth, active, s.budget) {
                        Err(error) => Err(
                            forms::Failure {
                                error,
                                at: Tracing {
                                    budget: spent(file, resources, name, s.budget),
                                    ..s
                                },
                                active: left_by(file, resources, name, depth, active, s.budget),
                            },
                        ),
                        Ok((None, budget)) => Ok(Tracing { budget, ..s }),
                        Ok((Some(form), budget)) => if depth < MAX_FORM_XOBJECT_DEPTH {
                            match walked(
                                file,
                                form.ops,
                                form.ops.len(),
                                form.resources,
                                depth + 1,
                                form.active,
                                untraced(form_ctm(s.ctm, form.matrix), s.output, budget),
                            ) {
                                Ok(inner) => Ok(
                                    Tracing { output: inner.output, budget: inner.budget, ..s },
                                ),
                                Err(f) => Err(left_form(f, form.id, s)),
                            }
                        } else {
                            Ok(s)
                        },
                    },
                }
            } else {
                match traced(s, op) {
                    Ok(after) => Ok(after),
                    Err(error) => Err(forms::Failure { error, at: s, active }),
                }
            },
        }
    }
}

/// A failure in a form as one in the content that uses it: the form is read no more.
pub open spec fn left_form(
    f: forms::Failure<Tracing>,
    id: Option<ObjectId>,
    s: Tracing,
) -> forms::Failure<Tracing> {
    forms::Failure {
        error: f.error,
        at: Tracing { output: f.at.output, budget: f.at.budget, ..s },
        active: forms::deactivated(f.active, id),
    }
}

/// How far the reading has come once an XObject has been used.
pub open spec fn finished(
    file: FileView,
    resources: DictView,
    name: Seq<char>,
    depth: nat,
    active: Seq<ObjectId>,
    s: Tracing,
) -> Result<Tracing, forms::Failure<Tracing>> {
    match used(file, resources, name, depth, active, s.budget) {
        Err(error) => Err(
            forms::Failure {
                error,
                at: Tracing { budget: spent(file, resources, name, s.budget), ..s },
                active: left_by(file, resources, name, depth, active, s.budget),
            },
        ),
        Ok((None, budget)) => Ok(Tracing { budget, ..s }),
        Ok((Some(form), budget)) => match walked(
            file,
            form.ops,
            form.ops.len(),
            form.resources,
            depth + 1,
            form.active,
            untraced(form_ctm(s.ctm, form.matrix), s.output, budget),
        ) {
            Ok(inner) => Ok(Tracing { output: inner.output, budget: inner.budget, ..s }),
            Err(f) => Err(left_form(f, form.id, s)),
        },
    }
}

/// How far the reading has come once one more operation has been read.
#[verifier::opaque]
pub open spec fn stepped(
    file: FileView,
    op: OperationView,
    resources: DictView,
    depth: nat,
    active: Seq<ObjectId>,
    s: Tracing,
) -> Result<Tracing, forms::Failure<Tracing>> {
    if op.0 == "Do"@ {
        match images::operand_name(op) {
            None => Ok(s),
            Some(name) => finished(file, resources, name, depth, active, s),
        }
    } else {
        match traced(s, op) {
            Ok(after) => Ok(after),
            Err(error) => Err(forms::Failure { error, at: s, active }),
        }
    }
}

/// The reading goes on step by step.
proof fn lemma_step(
    file: FileView,
    ops: Seq<OperationView>,
    n: nat,
    resources: DictView,
    depth: nat,
    active: Seq<ObjectId>,
    start: Tracing,
)
    requires
        0 < n <= ops.len(),
    ensures
        walked(file, ops, n, resources, depth, active, start) == (match walked(
            file,
            ops,
            (n - 1) as nat,
            resources,
            depth,
            active,
            start,
        ) {
            Err(e) => Err(e),
            Ok(s) => stepped(file, ops[n - 1], resources, depth, active, s),
        }),
{
    reveal(stepped);
}

/// Once the reading has failed, it has failed for good.
proof fn lemma_stopped(
    file: FileView,
    ops: Seq<OperationView>,
    k: nat,
    n: nat,
    resources: DictView,
    depth: nat,
    active: Seq<ObjectId>,
    start: Tracing,
)
    requires
        0 < k <= n <= ops.len(),
        walked(file, ops, k, resources, depth, active, start) is Err,
    ensures
        walked(file, ops, n, resources, depth, active, start) == walked(
            file,
            ops,
            k,
            resources,
            depth,
            active,
            start,
        ),
    decreases n,
{
    if k < n {
        lemma_stopped(file, ops, k, (n - 1) as nat, resources, depth, active, start);
    }
}

/// Whether what was drawn before still comes first.
pub open spec fn draws_on(before: CollectorView, after: CollectorView) -> bool {
    &&& before.lines.is_prefix_of(after.lines)
    &&& before.rects.is_prefix_of(after.rects)
    &&& before.curves.is_prefix_of(after.curves)
    &&& after.chars == before.chars
}

/// Reading content takes back nothing that was drawn, and uses XObjects only while there
/// are any left to use.
pub proof fn law_drawing_goes_on(
    file: FileView,
    ops: Seq<OperationView>,
    n: nat,
    resources: DictView,
    depth: nat,
    active: Seq<ObjectId>,
    start: Tracing,
)
    requires
        walked(file, ops, n, resources, depth, active, start) is Ok,
    ensures
        draws_on(
            start.output,
            walked(file, ops, n, resources, depth, active, start)->Ok_0.output,
        ),
        walked(file, ops, n, resources, depth, active, start)->Ok_0.budget <= start.budget,
    decreases MAX_FORM_XOBJECT_DEPTH - depth, n,
{
    if 0 < n <= ops.len() {
        let op = ops[n - 1];
        law_drawing_goes_on(file, ops, (n - 1) as nat, resources, depth, active, start);
        let s = walked(file, ops, (n - 1) as nat, resources, depth, active, start)->Ok_0;
        if op.0 == "Do"@ {
            if let Some(name) = images::operand_name(op) {
                if let Ok((Some(form), budget)) = used(
                    file,
                    resources,
                    name,
                    depth,
                    active,
                    s.budget,
                ) {
                    if depth < MAX_FORM_XOBJECT_DEPTH {
                        law_drawing_goes_on(
                            file,
                            form.ops,
                            form.ops.len(),
                            form.resources,
                            depth + 1,
                            form.active,
                            untraced(form_ctm(s.ctm, form.matrix), s.output, budget),
                        );
                    }
                }
            }
        }
    }
}

/// Restoring the matrix undoes what saving it did.
pub proof fn law_restore_undoes_save(s: Tracing, save: OperationView, restore: OperationView)
    requires
        save.0 == "q"@,
        restore.0 == "Q"@,
    ensures
        traced(s, save) matches Ok(saved) && traced(saved, restore) == Ok::<Tracing, ErrorView>(s),
{
    reveal_strlit("q");
    reveal_strlit("Q");
    assert("q"@[0] == 'q' && "Q"@[0] == 'Q');
    assert(s.saved.push(s.ctm).drop_last() =~= s.saved);
}

/// The paths that content draws, with the matrix that is in effect at its beginning.
pub open spec fn paths_in(
    file: FileView,
    content: ContentView,
    resources: DictView,
    geom: PageGeometry,
    page_number: usize,
    ctm: Transform,
) -> Result<CollectorView, ErrorView> {
    match content::operations_of(content) {
        None => Err(ErrorView::Lopdf(FileError::InvalidContentStream)),
        Some(ops) => match walked(
            file,
            ops,
            ops.len(),
            resources,
            0,
            Seq::empty(),
            untraced(
                ctm,
                CollectorView::empty(geom, page_number),
                MAX_XOBJECT_INVOCATIONS_PER_PAGE as nat,
            ),
        ) {
            Ok(s) => Ok(s.output),
            Err(f) => Err(f.error),
        },
    }
}

fn operand_of(operands: &Vec<PdfObject>, at: usize) -> (r: Option<Float>)
    ensures
        r == operand(types::seen(operands@), at as int),
{
    if at < operands.len() {
        obj_to_f64(&operands[at])
    } else {
        None
    }
}

/// The point that two operands make up.
pub fn point_from_operands(operands: &Vec<PdfObject>, at: usize) -> (r: Option<Point>)
    requires
        at < usize::MAX,
    ensures
        r == operand_point(types::seen(operands@), at as int),
{
    match (operand_of(operands, at), operand_of(operands, at + 1)) {
        (Some(x), Some(y)) => Some(Point { x, y }),
        _ => None,
    }
}

/// Closes the path, unless it is empty, closed or a rectangle.
pub fn close_path(path: &mut Vec<PathOp>)
    ensures
        final(path)@ == closed_path(old(path)@),
{
    let n: usize = path.len();
    if n > 0 {
        match path[n - 1] {
            PathOp::Close => (),
            PathOp::Rect(_, _, _, _) => (),
            _ => {
                path.push(PathOp::Close);
            },
        }
    }
}

/// The path under construction.
struct Pen {
    path: Vec<PathOp>,
    current: Option<Point>,
    begin: Option<Point>,
}

impl Pen {
    fn curve(&mut self, c1: Point, c2: Point, p: Point)
        ensures
            final(self).path@ == old(self).path@.push(
                PathOp::CurveTo(c1.x, c1.y, c2.x, c2.y, p.x, p.y),
            ),
            final(self).current == Some(p),
            final(self).begin == old(self).begin,
    {
        self.path.push(PathOp::CurveTo(c1.x, c1.y, c2.x, c2.y, p.x, p.y));
        self.current = Some(p);
    }

    spec fn shows(self, s: Tracing) -> bool {
        self.path@ == s.path && self.current == s.current && self.begin == s.begin
    }

    /// Reads an operator that extends the path.
    fn extend(&mut self, op: &PdfOperation, Ghost(s): Ghost<Tracing>)
        requires
            old(self).shows(s),
        ensures
            final(self).shows(extended(s, op@)),
    {
        proof {
            object::lemma_operation_view(*op);
        }
        let operator: &str = op.operator.as_str();
        if strings::same_text(operator, "m") {
            if let Some(p) = point_from_operands(&op.operands, 0) {
                self.path.push(PathOp::MoveTo(p.x, p.y));
                self.current = Some(p);
                self.begin = Some(p);
            }
        } else if strings::same_text(operator, "l") {
            if let Some(p) = point_from_operands(&op.operands, 0) {
                self.path.push(PathOp::LineTo(p.x, p.y));
                self.current = Some(p);
            }
        } else if strings::same_text(operator, "c") {
            if let (Some(c1), Some(c2), Some(p)) = (
                point_from_operands(&op.operands, 0),
                point_from_operands(&op.operands, 2),
                point_from_operands(&op.operands, 4),
            ) {
                self.curve(c1, c2, p);
            }
        } else if strings::same_text(operator, "v") {
            if let (Some(c1), Some(c2), Some(p)) = (
                self.current,
                point_from_operands(&op.operands, 0),
                point_from_operands(&op.operands, 2),
            ) {
                self.curve(c1, c2, p);
            }
        } else if strings::same_text(operator, "y") {
            if let (Some(c1), Some(p)) = (
                point_from_operands(&op.operands, 0),
                point_from_operands(&op.operands, 2),
            ) {
                self.curve(c1, p, p);
            }
        } else if strings::same_text(operator, "h") {
            close_path(&mut self.path);
            self.current = self.begin;
        } else if strings::same_text(operator, "re") {
            if let (Some(p), Some(w), Some(h)) = (
                point_from_operands(&op.operands, 0),
                operand_of(&op.operands, 2),
                operand_of(&op.operands, 3),
            ) {
                self.path.push(PathOp::Rect(p.x, p.y, w, h));
                self.current = Some(p);
                self.begin = Some(p);
            }
        }
    }
}

fn painting_of(operator: &str) -> (r: Option<(bool, bool, bool)>)
    ensures
        r == painting(operator@),
{
    if strings::same_text(operator, "S") {
        Some((false, true, false))
    } else if strings::same_text(operator, "s") {
        Some((true, true, false))
    } else if strings::same_text(operator, "F") || strings::same_text(operator, "f")
        || strings::same_text(operator, "f*") {
        Some((false, false, true))
    } else if strings::same_text(operator, "B") || strings::same_text(operator, "B*") {
        Some((false, true, true))
    } else if strings::same_text(operator, "b") || strings::same_text(operator, "b*") {
        Some((true, true, true))
    } else {
        None
    }
}

struct PagePathWalker<'a> {
    file: &'a PdfFile,
    collector: CollectorOutput,
    active_forms: Vec<ObjectId>,
    remaining_xobject_invocations: usize,
}

impl<'a> PagePathWalker<'a> {
    spec fn tracing(self, ctm: Transform, saved: Seq<Transform>, pen: Pen) -> Tracing {
        Tracing {
            ctm,
            saved,
            path: pen.path@,
            current: pen.current,
            begin: pen.begin,
            output: self.collector@,
            budget: self.remaining_xobject_invocations as nat,
        }
    }

    /// Whether the reading stopped as described.
    spec fn stopped(self, f: forms::Failure<Tracing>, r: Result<(), Error>) -> bool {
        &&& r matches Err(error) && error@ == f.error
        &&& self.collector@ == f.at.output
        &&& self.remaining_xobject_invocations == f.at.budget
        &&& self.active_forms@ == f.active
    }

    fn walk_stream(
        &mut self,
        ops: &Vec<PdfOperation>,
        resources: &PdfDictionary,
        initial_ctm: Transform,
        form_depth: usize,
    ) -> (r: Result<(), Error>)
        requires
            form_depth <= MAX_FORM_XOBJECT_DEPTH,
        ensures
            final(self).file == old(self).file,
            match walked(
                old(self).file@,
                types::seen(ops@),
                ops@.len(),
                resources@,
                form_depth as nat,
                old(self).active_forms@,
                untraced(
                    initial_ctm,
                    old(self).collector@,
                    old(self).remaining_xobject_invocations as nat,
                ),
            ) {
                Ok(s) => r is Ok && final(self).active_forms@ == old(self).active_forms@
                    && final(self).collector@ == s.output
                    && final(self).remaining_xobject_invocations == s.budget,
                Err(f) => final(self).stopped(f, r),
            },
        decreases MAX_FORM_XOBJECT_DEPTH - form_depth, 2int,
    {
        let ghost file = self.file@;
        let ghost active = self.active_forms@;
        let ghost start = untraced(
            initial_ctm,
            self.collector@,
            self.remaining_xobject_invocations as nat,
        );
        let ghost all = types::seen(ops@);
        let n: usize = ops.len();
        let mut ctm: Transform = initial_ctm;
        let mut stack: Vec<Transform> = Vec::new();
        let mut pen: Pen = Pen { path: Vec::new(), current: None, begin: None };
        assert(self.tracing(ctm, stack@, pen) =~= start);
        for i in 0..n
            invariant
                n == ops@.len(),
                all == types::seen(ops@),
                form_depth <= MAX_FORM_XOBJECT_DEPTH,
                self.file == old(self).file,
                file == self.file@,
                self.active_forms@ == active,
                active == old(self).active_forms@,
                start == untraced(
                    initial_ctm,
                    old(self).collector@,
                    old(self).remaining_xobject_invocations as nat,
                ),
                walked(file, all, i as nat, resources@, form_depth as nat, active, start) == Ok::<
                    Tracing,
                    forms::Failure<Tracing>,
                >(self.tracing(ctm, stack@, pen)),
        {
            proof {
                assert(all[i as int] == ops@[i as int]@);
                lemma_step(
                    file,
                    all,
                    (i + 1) as nat,
                    resources@,
                    form_depth as nat,
                    active,
                    start,
                );
            }
            match self.step(&ops[i], resources, &mut ctm, &mut stack, &mut pen, form_depth) {
                Ok(()) => (),
                Err(e) => {
                    proof {
                        lemma_stopped(
                            file,
                            all,
                            (i + 1) as nat,
                            n as nat,
                            resources@,
                            form_depth as nat,
                            active,
                            start,
                        );
                    }
                    return Err(e);
                },
            }
        }
        Ok(())
    }

    /// Reads one operation.
    #[verifier::rlimit(40)]
    fn step(
        &mut self,
        op: &PdfOperation,
        resources: &PdfDictionary,
        ctm: &mut Transform,
        stack: &mut Vec<Transform>,
        pen: &mut Pen,
        form_depth: usize,
    ) -> (r: Result<(), Error>)
        requires
            form_depth <= MAX_FORM_XOBJECT_DEPTH,
        ensures
            final(self).file == old(self).file,
            match stepped(
                old(self).file@,
                op@,
                resources@,
                form_depth as nat,
                old(self).active_forms@,
                old(self).tracing(*old(ctm), old(stack)@, *old(pen)),
            ) {
                Ok(s) => r is Ok && final(self).active_forms@ == old(self).active_forms@
                    && final(self).tracing(*final(ctm), final(stack)@, *final(pen)) == s,
                Err(f) => final(self).stopped(f, r) && final(self).tracing(
                    *final(ctm),
                    final(stack)@,
                    *final(pen),
                ) == f.at,
            },
        decreases MAX_FORM_XOBJECT_DEPTH - form_depth, 1int,
    {
        let operator: &str = op.operator.as_str();
        let ghost s = self.tracing(*ctm, stack@, *pen);
        proof {
            reveal(stepped);
            object::lemma_operation_view(*op);
        }
        if strings::same_text(operator, "Do") {
            match first_name(&op.operands) {
                Some(name) => {
                    assert(images::operand_name(op@) == Some(name@));
                    self.walk_xobject(resources, name.as_str(), *ctm, form_depth, Ghost(s))
                },
                None => {
                    assert(images::operand_name(op@) is None);
                    Ok(())
                },
            }
        } else if strings::same_text(operator, "q") {
            stack.push(*ctm);
            Ok(())
        } else if strings::same_text(operator, "Q") {
            *ctm = match stack.pop() {
                Some(m) => m,
                None => Transform::identity(),
            };
            assert(stack@ =~= images::popped(s.saved));
            Ok(())
        } else if strings::same_text(operator, "cm") {
            match transform_from_operands(&op.operands) {
                Ok(m) => {
                    *ctm = ctm.pre_transform(m);
                    Ok(())
                },
                Err(e) => Err(e),
            }
        } else if strings::same_text(operator, "n") {
            *pen = Pen { path: Vec::new(), current: None, begin: None };
            assert(pen.path@ =~= Seq::<PathOp>::empty());
            Ok(())
        } else {
            match painting_of(operator) {
                Some((close, stroke, fill)) => {
                    self.paint(ctm, &mut pen.path, stroke, fill, close);
                    *pen = Pen { path: Vec::new(), current: None, begin: None };
                    assert(pen.path@ =~= Seq::<PathOp>::empty());
                },
                None => {
                    pen.extend(op, Ghost(s));
                },
            }
            Ok(())
        }
    }

    fn paint(&mut self, ctm: &Transform, path: &mut Vec<PathOp>, stroke: bool, fill: bool, close: bool)
        ensures
            final(self).file == old(self).file,
            final(self).active_forms@ == old(self).active_forms@,
            final(self).remaining_xobject_invocations == old(self).remaining_xobject_invocations,
            final(self).collector@ == old(self).collector@.with_path(
                *ctm,
                if close {
                    closed_path(old(path)@)
                } else {
                    old(path)@
                },
                stroke,
                fill,
            ),
    {
        if close {
            close_path(path);
        }
        self.collector.push_path(ctm, path, stroke, fill);
    }

    fn walk_xobject(
        &mut self,
        resources: &PdfDictionary,
        name: &str,
        ctm: Transform,
        form_depth: usize,
        Ghost(s): Ghost<Tracing>,
    ) -> (r: Result<(), Error>)
        requires
            form_depth <= MAX_FORM_XOBJECT_DEPTH,
            s.ctm == ctm,
            s.output == old(self).collector@,
            s.budget == old(self).remaining_xobject_invocations,
        ensures
            final(self).file == old(self).file,
            match finished(
                old(self).file@,
                resources@,
                name@,
                form_depth as nat,
                old(self).active_forms@,
                s,
            ) {
                Ok(after) => r is Ok && final(self).active_forms@ == old(self).active_forms@
                    && (Tracing {
                    output: final(self).collector@,
                    budget: final(self).remaining_xobject_invocations as nat,
                    ..s
                }) == after,
                Err(f) => final(self).stopped(f, r) && (Tracing {
                    output: final(self).collector@,
                    budget: final(self).remaining_xobject_invocations as nat,
                    ..s
                }) == f.at,
            },
        decreases MAX_FORM_XOBJECT_DEPTH - form_depth, 0int,
    {
        let file: &'a PdfFile = self.file;
        let target: &PdfObject = match find_xobject(file, resources, name) {
            Err(e) => {
                return Err(e);
            },
            Ok(None) => {
                return Ok(());
            },
            Ok(Some(target)) => target,
        };
        if self.remaining_xobject_invocations == 0 {
            return Err(Error::message("page exceeds maximum of 10000 XObject invocations"));
        }
        self.remaining_xobject_invocations = self.remaining_xobject_invocations - 1;
        let form: OpenForm = match find_form(
            file,
            resources,
            target,
            form_depth,
            &mut self.active_forms,
        ) {
            Err(e) => {
                return Err(e);
            },
            Ok(None) => {
                return Ok(());
            },
            Ok(Some(form)) => form,
        };
        let matrix: Transform = match form.matrix {
            Some(m) => m,
            None => Transform::identity(),
        };
        let next_ctm: Transform = ctm.pre_transform(matrix);
        proof {
            forms::law_opened_forms_close(
                old(self).file@,
                resources@,
                target@,
                form_depth as nat,
                old(self).active_forms@,
            );
        }
        let result: Result<(), Error> = self.walk_stream(
            &form.ops,
            form.resources,
            next_ctm,
            form_depth + 1,
        );
        close_form(&mut self.active_forms, form.id);
        result
    }
}

/// The lines, rectangles and curves that content draws.
pub type PagePaths = (Vec<Line>, Vec<RectObject>, Vec<Curve>);

/// Whether the paths are those collected.
pub open spec fn shows_paths(paths: PagePaths, output: CollectorView) -> bool {
    &&& types::seen(paths.0@) == output.lines
    &&& types::seen(paths.1@) == output.rects
    &&& types::seen(paths.2@) == output.curves
}

/// The paths that content draws, with the matrix that is in effect at its beginning.
pub fn collect_stream(
    file: &PdfFile,
    content: &PdfContent,
    resources: &PdfDictionary,
    geom: PageGeometry,
    page_number: usize,
    initial_ctm: Transform,
) -> (r: Result<PagePaths, Error>)
    ensures
        match paths_in(file@, content@, resources@, geom, page_number, initial_ctm) {
            Ok(output) => r matches Ok(paths) && shows_paths(paths, output),
            Err(e) => r matches Err(error) && error@ == e,
        },
{
    let ops: Vec<PdfOperation> = match read_operations(content) {
        Some(ops) => ops,
        None => {
            return Err(Error::Lopdf(FileError::InvalidContentStream));
        },
    };
    let mut walker: PagePathWalker = PagePathWalker {
        file,
        collector: CollectorOutput::new(geom, page_number),
        active_forms: Vec::new(),
        remaining_xobject_invocations: MAX_XOBJECT_INVOCATIONS_PER_PAGE,
    };
    assert(walker.active_forms@ =~= Seq::<ObjectId>::empty());
    match walker.walk_stream(&ops, resources, initial_ctm, 0) {
        Ok(()) => {
            let (_chars, lines, rects, curves) = walker.collector.finish();
            Ok((lines, rects, curves))
        },
        Err(e) => Err(e),
    }
}

/// The paths that the content of a page draws.
pub fn collect(
    file: &PdfFile,
    content: &PdfContent,
    resources: &PdfDictionary,
    geom: PageGeometry,
    page_number: usize,
) -> (r: Result<PagePaths, Error>)
    ensures
        match paths_in(
            file@,
            content@,
            resources@,
            geom,
            page_number,
            Transform::neutral(),
        ) {
            Ok(output) => r matches Ok(paths) && shows_paths(paths, output),
            Err(e) => r matches Err(error) && error@ == e,
        },
{
    collect_stream(file, content, resources, geom, page_number, Transform::identity())
}

} // verus!
