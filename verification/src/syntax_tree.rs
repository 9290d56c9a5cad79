//! The syntax tree of a file's code, as `swc_core` makes it, changes it and prints it.
//!
//! A tree is opaque here. What a pass makes of it, what is read off it and how it is
//! printed are named, each by the tree that it is done to: the same tree always gives
//! the same. Nothing is said of how deeply code may be nested: the parser and the passes
//! recurse, and where the stack ends depends on the machine.

use std::rc::Rc;

use vstd::prelude::*;

use swc_core::common::comments::Comment;
use swc_core::common::comments::SingleThreadedComments;
use swc_core::common::BytePos;
use swc_core::common::FileName;
use swc_core::common::Globals;
use swc_core::common::Mark;
use swc_core::common::SourceMap;
use swc_core::common::SyntaxContext;
use swc_core::common::DUMMY_SP;
use swc_core::common::GLOBALS;
use swc_core::ecma::ast::Bool;
use swc_core::ecma::ast::CallExpr;
use swc_core::ecma::ast::Callee;
use swc_core::ecma::ast::EsVersion;
use swc_core::ecma::ast::Expr;
use swc_core::ecma::ast::Ident as SwcIdent;
use swc_core::ecma::ast::IdentName;
use swc_core::ecma::ast::Lit;
use swc_core::ecma::ast::ModuleDecl;
use swc_core::ecma::ast::Program;
use swc_core::ecma::ast::Str;
use swc_core::ecma::ast::TplElement;
use swc_core::ecma::atoms::Atom;
use swc_core::ecma::atoms::Wtf8Atom;
use swc_core::ecma::codegen::text_writer::JsWriter;
use swc_core::ecma::codegen::Config as CodegenConfig;
use swc_core::ecma::codegen::Emitter;
use swc_core::ecma::parser::lexer::Lexer;
use swc_core::ecma::parser::EsSyntax;
use swc_core::ecma::parser::Parser;
use swc_core::ecma::parser::StringInput;
use swc_core::ecma::parser::Syntax;
use swc_core::ecma::transforms::base::fixer::fixer;
use swc_core::ecma::transforms::base::helpers::inject_helpers;
use swc_core::ecma::transforms::base::helpers::Helpers;
use swc_core::ecma::transforms::base::helpers::HELPERS;
use swc_core::ecma::transforms::base::hygiene::hygiene;
use swc_core::ecma::transforms::base::resolver;
use swc_core::ecma::transforms::module::common_js::common_js;
use swc_core::ecma::transforms::module::path::Resolver;
use swc_core::ecma::transforms::optimization::simplify::dead_branch_remover;
use swc_core::ecma::transforms::optimization::simplify::expr_simplifier;
use swc_core::ecma::utils::collect_decls;
use swc_core::ecma::visit::Visit;
use swc_core::ecma::visit::VisitMut;
use swc_core::ecma::visit::VisitMutWith;
use swc_core::ecma::visit::VisitWith;

use crate::text;
use crate::transform;
use crate::transform::Call;
use crate::transform::CallView;
use crate::transform::Edge;
use crate::transform::EdgeView;
use crate::transform::EnvReplacer;
use crate::transform::ExprView;
use crate::transform::Expression;
use crate::transform::Ident;
use crate::transform::MemberExpr;
use crate::transform::MemberProp;
use crate::transform::MemberView;
use crate::transform::Quasi;
use crate::transform::Replacement;
use crate::transform::ReplacementView;
use crate::transform::Span;

verus! {

/// How many bytes of code a tree can be made of. Positions in the code are numbers of
/// 32 bits, the last `2^16` of which are kept for what is not in the code.
pub const MAX_CODE_SIZE: usize = 4_294_901_757;

/// How much of the stack has to be left when a pass begins, and how much it gets if there
/// is less.
pub const STACK_RED_ZONE: usize = 2_097_152;

pub const STACK_SIZE: usize = 67_108_864;

/// `Program`: a syntax tree.
#[verifier::external_type_specification]
#[verifier::external_body]
pub struct ExProgram(swc_core::ecma::ast::Program);

/// `SourceMap`: the code that the positions in a tree refer to.
#[verifier::external_type_specification]
#[verifier::external_body]
pub struct ExSourceMap(swc_core::common::SourceMap);

/// `SingleThreadedComments`: the comments of the code, by the positions before and
/// after which they stand.
#[verifier::external_type_specification]
#[verifier::external_body]
pub struct ExSingleThreadedComments(swc_core::common::comments::SingleThreadedComments);

/// `Globals`: the numbers of the scopes that have been given out.
#[verifier::external_type_specification]
#[verifier::external_body]
pub struct ExGlobals(swc_core::common::Globals);

/// `Helpers`: the helper functions that the passes have put calls of into the tree.
#[verifier::external_type_specification]
#[verifier::external_body]
pub struct ExHelpers(swc_core::ecma::transforms::base::helpers::Helpers);

/// `Mark`: the number of a scope.
#[verifier::external_type_specification]
#[verifier::external_body]
pub struct ExMark(swc_core::common::Mark);

/// `Expr`: an expression in a tree.
#[verifier::external_type_specification]
#[verifier::external_body]
pub struct ExExpr(swc_core::ecma::ast::Expr);

/// `CallExpr`: a call in a tree.
#[verifier::external_type_specification]
#[verifier::external_body]
pub struct ExCallExpr(swc_core::ecma::ast::CallExpr);

/// `ModuleDecl`: an `import` or `export` in a tree.
#[verifier::external_type_specification]
#[verifier::external_body]
pub struct ExModuleDecl(swc_core::ecma::ast::ModuleDecl);

/// What is read of a file's code.
pub struct Parsed {
    program: Program,
    source_map: Rc<SourceMap>,
    comments: SingleThreadedComments,
}

/// The syntax tree of a file's code, with all that the passes share.
pub struct Tree {
    program: Program,
    source_map: Rc<SourceMap>,
    comments: SingleThreadedComments,
    globals: Globals,
    helpers: Helpers,
    /// The scope of what is declared nowhere in the file.
    unresolved: Mark,
}

/// How code is read.
#[derive(Clone, Copy)]
pub struct ParseOptions {
    pub jsx: bool,
    pub export_default_from: bool,
    pub decorators: bool,
}

/// What `swc_core`'s parser makes of code: a tree, or the error that the code is refused
/// with, in its debug form.
pub uninterp spec fn parsed(code: Seq<char>, options: ParseOptions) -> Result<Parsed, Seq<char>>;

/// `Parser::parse_module` on the code, with an empty collection of comments to fill. The
/// outcome depends on the code and the options alone.
#[verifier::external_body]
pub(crate) fn parse(code: &str, options: ParseOptions) -> (r: Result<Parsed, String>)
    requires
        vstd::utf8::encode_utf8(code@).len() <= MAX_CODE_SIZE,
    ensures
        (match r {
            Ok(tree) => parsed(code@, options) == Ok::<Parsed, Seq<char>>(tree),
            Err(message) => parsed(code@, options) == Err::<Parsed, Seq<char>>(message@),
        }),
{
    let source_map: Rc<SourceMap> = Rc::new(SourceMap::default());
    let comments = SingleThreadedComments::default();
    let file = source_map.new_source_file(FileName::Anon.into(), code.to_string());
    let ParseOptions { jsx, export_default_from, decorators } = options;
    let es = EsSyntax { jsx, export_default_from, decorators, ..Default::default() };
    let input = StringInput::from(&*file);
    let lexer = Lexer::new(Syntax::Es(es), EsVersion::latest(), input, Some(&comments));
    let module = Parser::new_from(lexer).parse_module().map_err(|err| format!("{:?}", err))?;
    Ok(Parsed { program: Program::Module(module), source_map, comments })
}

/// What [`resolve`] makes of what was read.
pub uninterp spec fn resolved(parsed: Parsed, external_helpers: bool, typescript: bool) -> Tree;

/// `resolver`: gives each identifier the number of its scope. The helper functions that
/// later passes put in calls of are to be imported, or to be put into the code.
#[verifier::external_body]
pub(crate) fn resolve(parsed: Parsed, external_helpers: bool, typescript: bool) -> (r: Tree)
    ensures
        r == resolved(parsed, external_helpers, typescript),
{
    let globals = Globals::new();
    let (program, helpers, unresolved) = stacker::maybe_grow(STACK_RED_ZONE, STACK_SIZE, || {
        GLOBALS.set(&globals, || {
            let helpers = Helpers::new(external_helpers);
            let (unresolved, top_level) = (Mark::new(), Mark::new());
            let pass = resolver(unresolved, top_level, typescript);
            (parsed.program.apply(pass), helpers, unresolved)
        })
    });
    let Parsed { source_map, comments, .. } = parsed;
    Tree { program, source_map, comments, globals, helpers, unresolved }
}

/// What [`simplify`] makes of a tree.
pub uninterp spec fn simplified(tree: Tree) -> Tree;

/// `expr_simplifier`: computes what can be computed in the code.
#[verifier::external_body]
pub(crate) fn simplify(tree: Tree) -> (r: Tree)
    ensures
        r == simplified(tree),
{
    let program = stacker::maybe_grow(STACK_RED_ZONE, STACK_SIZE, || {
        GLOBALS.set(&tree.globals, || {
            let pass = expr_simplifier(tree.unresolved, Default::default());
            HELPERS.set(&tree.helpers, || tree.program.apply(pass))
        })
    });
    Tree { program, ..tree }
}

/// What [`remove_dead_branches`] makes of a tree.
pub uninterp spec fn without_dead_branches(tree: Tree) -> Tree;

/// `dead_branch_remover`: removes the branches that are never taken.
#[verifier::external_body]
pub(crate) fn remove_dead_branches(tree: Tree) -> (r: Tree)
    ensures
        r == without_dead_branches(tree),
{
    let program = stacker::maybe_grow(STACK_RED_ZONE, STACK_SIZE, || {
        GLOBALS.set(&tree.globals, || {
            let pass = dead_branch_remover(tree.unresolved);
            HELPERS.set(&tree.helpers, || tree.program.apply(pass))
        })
    });
    Tree { program, ..tree }
}

/// What [`to_common_js`] makes of a tree.
pub uninterp spec fn as_common_js(tree: Tree) -> Tree;

/// `common_js`: writes `import` and `export` as calls of `require` and assignments to
/// `exports`.
#[verifier::external_body]
pub(crate) fn to_common_js(tree: Tree) -> (r: Tree)
    ensures
        r == as_common_js(tree),
{
    let program = stacker::maybe_grow(STACK_RED_ZONE, STACK_SIZE, || {
        GLOBALS.set(&tree.globals, || {
            HELPERS.set(&tree.helpers, || {
                let (config, features) = (Default::default(), Default::default());
                tree.program.apply(common_js(Resolver::Default, tree.unresolved, config, features))
            })
        })
    });
    Tree { program, ..tree }
}

/// What [`add_helpers`] makes of a tree.
pub uninterp spec fn with_helpers(tree: Tree) -> Tree;

/// `inject_helpers`: puts in the helper functions that the passes so far have put in
/// calls of.
#[verifier::external_body]
pub(crate) fn add_helpers(tree: Tree) -> (r: Tree)
    ensures
        r == with_helpers(tree),
{
    let program = stacker::maybe_grow(STACK_RED_ZONE, STACK_SIZE, || {
        GLOBALS.set(&tree.globals, || {
            HELPERS.set(&tree.helpers, || tree.program.apply(inject_helpers(tree.unresolved)))
        })
    });
    Tree { program, ..tree }
}

/// What [`rename`] makes of a tree.
pub uninterp spec fn renamed(tree: Tree) -> Tree;

/// `hygiene`: renames identifiers of different scopes that would be taken for each other.
#[verifier::external_body]
pub(crate) fn rename(tree: Tree) -> (r: Tree)
    ensures
        r == renamed(tree),
{
    let program = stacker::maybe_grow(STACK_RED_ZONE, STACK_SIZE, || {
        GLOBALS.set(&tree.globals, || {
            HELPERS.set(&tree.helpers, || tree.program.apply(hygiene()))
        })
    });
    Tree { program, ..tree }
}

/// What [`fix`] makes of a tree.
pub uninterp spec fn fixed(tree: Tree) -> Tree;

/// `fixer`: puts in the brackets that the tree needs when it is printed.
#[verifier::external_body]
pub(crate) fn fix(tree: Tree) -> (r: Tree)
    ensures
        r == fixed(tree),
{
    let program = stacker::maybe_grow(STACK_RED_ZONE, STACK_SIZE, || {
        GLOBALS.set(&tree.globals, || {
            HELPERS.set(&tree.helpers, || tree.program.apply(fixer(Some(&tree.comments))))
        })
    });
    Tree { program, ..tree }
}

/// What [`declared`] finds in a tree.
pub uninterp spec fn declared_in(tree: Tree) -> Set<(Seq<char>, u32)>;

/// `collect_decls`: the identifiers that are declared in a tree, with the numbers of
/// their scopes. They come in no particular order.
#[verifier::external_body]
pub(crate) fn declared(tree: &Tree) -> (decls: Vec<Ident>)
    ensures
        transform::ident_set(decls@) == declared_in(*tree),
{
    stacker::maybe_grow(STACK_RED_ZONE, STACK_SIZE, || {
        collect_decls::<(Atom, SyntaxContext), _>(&tree.program)
            .into_iter()
            .map(|(sym, ctxt)| Ident { sym: sym.to_string(), ctxt: ctxt.as_u32() })
            .collect()
    })
}

/// An expression in a tree: what it says, as far as it matters, and the expressions that
/// stand in it, in the order of the code, those within one of them aside.
pub struct ExprNode {
    pub says: ExprView,
    pub parts: Seq<ExprNode>,
}

/// What an expression in a tree is.
pub uninterp spec fn expr_holds(expr: Expr) -> ExprNode;

/// One level of an `Expr`.
enum Node<'a> {
    Ident(Ident),
    Member(&'a Expr, MemberProp),
    Str(String, Span),
    Tpl,
    Other,
}

/// Takes one level off an `Expr`: its variant, if it is one that matters, with what the
/// variant holds. Halves of surrogate pairs in a text are replaced.
#[verifier::external_body]
fn open_expr<'a>(expr: &'a Expr) -> (node: Node<'a>)
    ensures
        (match node {
            Node::Ident(ident) => expr_holds(*expr).says == ExprView::Ident(
                transform::ident_view(ident),
            ),
            Node::Member(obj, prop) => expr_holds(*expr).says == ExprView::Member(
                Box::new(
                    MemberView { obj: expr_holds(*obj).says, prop: transform::prop_view(prop) },
                ),
            ),
            Node::Str(value, span) => expr_holds(*expr).says == ExprView::Str(value@, span),
            Node::Tpl => expr_holds(*expr).says is Tpl,
            Node::Other => expr_holds(*expr).says == ExprView::Other,
        }),
{
    let name = |m: &IdentName| MemberProp::Ident(m.sym.to_string());
    match expr {
        Expr::Ident(i) => Node::Ident(Ident { sym: i.sym.to_string(), ctxt: i.ctxt.as_u32() }),
        Expr::Member(m) => Node::Member(&m.obj, m.prop.as_ident().map_or(MemberProp::Other, name)),
        Expr::Lit(Lit::Str(s)) => {
            let span = Span { lo: s.span.lo.0, hi: s.span.hi.0 };
            Node::Str(s.value.to_atom_lossy().to_string(), span)
        },
        Expr::Tpl(_) => Node::Tpl,
        _ => Node::Other,
    }
}

/// What an `Expr` that is a template literal holds: its `quasis`, the number of its
/// `exprs`, and its place.
#[verifier::external_body]
fn open_template(expr: &Expr) -> (parts: (Vec<Quasi>, usize, Span))
    requires
        expr_holds(*expr).says is Tpl,
    ensures
        expr_holds(*expr).says == ExprView::Tpl(
            parts.0@.map_values(|q: Quasi| transform::quasi_view(q)),
            parts.1 as nat,
            parts.2,
        ),
{
    let cooked = |c: &Wtf8Atom| c.to_atom_lossy().to_string();
    let quasi = |q: &TplElement| {
        Quasi { cooked: q.cooked.as_ref().map(cooked), raw: q.raw.to_string() }
    };
    match expr {
        Expr::Tpl(t) => {
            let span = Span { lo: t.span.lo.0, hi: t.span.hi.0 };
            (t.quasis.iter().map(quasi).collect(), t.exprs.len(), span)
        },
        _ => (Vec::new(), 0, Span { lo: 0, hi: 0 }),
    }
}

/// What an expression says.
fn to_expr(expr: &Expr) -> (r: Expression)
    ensures
        transform::expr_view(r) == expr_holds(*expr).says,
    decreases expr_holds(*expr).says,
{
    match open_expr(expr) {
        Node::Ident(ident) => Expression::Ident(ident),
        Node::Member(obj, prop) => {
            proof {
                let view = expr_holds(*expr).says;
                assert(decreases_to!(view => view->Member_0));
                assert(decreases_to!(view->Member_0 => view->Member_0.obj));
            }
            let obj: Expression = to_expr(obj);
            Expression::Member(Box::new(MemberExpr { obj, prop }))
        },
        Node::Str(value, span) => Expression::Str { value, span },
        Node::Tpl => {
            let (quasis, exprs, span) = open_template(expr);
            Expression::Tpl { quasis, exprs, span }
        },
        Node::Other => Expression::Other,
    }
}

/// What an expression says, if it is a property of an object.
fn to_member(expr: &Expr) -> (r: Option<MemberExpr>)
    ensures
        (match r {
            Some(member) => expr_holds(*expr).says == ExprView::Member(
                Box::new(transform::member_view(member)),
            ),
            None => !(expr_holds(*expr).says is Member),
        }),
{
    match open_expr(expr) {
        Node::Member(obj, prop) => {
            let obj: Expression = to_expr(obj);
            Some(MemberExpr { obj, prop })
        },
        _ => None,
    }
}

/// What a [`Replacement`] is in a tree.
pub open spec fn replacement_expr(replacement: ReplacementView) -> ExprView {
    match replacement {
        ReplacementView::True => ExprView::Other,
        ReplacementView::Text(value) => ExprView::Str(value, Span { lo: 0, hi: 0 }),
        ReplacementView::Undefined => ExprView::Ident(("undefined"@, 0)),
    }
}

/// Puts a new `Expr` in the place of another: `true`, a string literal, or the
/// identifier `undefined`, which stands nowhere in the code and belongs to no scope.
#[verifier::external_body]
fn put(node: &mut Expr, replacement: Replacement)
    ensures
        expr_holds(*final(node)).says == replacement_expr(replacement@),
        expr_holds(*final(node)).parts.len() == 0,
{
    *node = match replacement {
        Replacement::True => Expr::Lit(Lit::Bool(Bool { span: DUMMY_SP, value: true })),
        Replacement::Text(value) => {
            Expr::Lit(Lit::Str(Str { span: DUMMY_SP, value: Atom::from(value).into(), raw: None }))
        },
        Replacement::Undefined => {
            Expr::Ident(SwcIdent::new_no_ctxt("undefined".into(), DUMMY_SP))
        },
    };
}

/// What is said after the environment has been written in: a property of an object is
/// replaced, if it is one that is, or else looked for in the object.
pub open spec fn placed_view(
    says: ExprView,
    is_browser: bool,
    env: Map<Seq<char>, Seq<char>>,
    decls: Set<(Seq<char>, u32)>,
) -> ExprView
    decreases says,
{
    match says {
        ExprView::Member(member) => match transform::member_replacement(
            is_browser,
            env,
            *member,
            decls,
        ) {
            Some(replacement) => replacement_expr(replacement),
            None => ExprView::Member(
                Box::new(
                    MemberView {
                        obj: placed_view(member.obj, is_browser, env, decls),
                        prop: member.prop,
                    },
                ),
            ),
        },
        _ => says,
    }
}

/// An expression after the environment has been written into it: it is replaced as a
/// whole, or else in each of its parts.
pub open spec fn placed(
    node: ExprNode,
    is_browser: bool,
    env: Map<Seq<char>, Seq<char>>,
    decls: Set<(Seq<char>, u32)>,
) -> ExprNode
    decreases node,
{
    let replaced = match node.says {
        ExprView::Member(member) => transform::member_replacement(
            is_browser,
            env,
            *member,
            decls,
        ) is Some,
        _ => false,
    };
    ExprNode {
        says: placed_view(node.says, is_browser, env, decls),
        parts: if replaced {
            Seq::empty()
        } else {
            Seq::new(
                node.parts.len(),
                |i: int|
                    if 0 <= i < node.parts.len() {
                        placed(node.parts[i], is_browser, env, decls)
                    } else {
                        arbitrary()
                    },
            )
        },
    }
}

/// `VisitMutWith::visit_mut_children_with`: takes the visitor on to the parts of an
/// expression, each of which becomes what the visitor makes of it. The expression itself
/// stays what it is, a property of an object one of the object's successor.
#[verifier::external_body]
fn visit_parts(node: &mut Expr, visitor: &mut EnvReplacer)
    ensures
        final(visitor).is_browser == old(visitor).is_browser,
        final(visitor).env_view() == old(visitor).env_view(),
        final(visitor).decls@ == old(visitor).decls@,
        expr_holds(*final(node)).says == (match expr_holds(*old(node)).says {
            ExprView::Member(member) => ExprView::Member(
                Box::new(
                    MemberView {
                        obj: placed_view(
                            member.obj,
                            old(visitor).is_browser,
                            old(visitor).env_view(),
                            transform::ident_set(old(visitor).decls@),
                        ),
                        prop: member.prop,
                    },
                ),
            ),
            says => says,
        }),
        expr_holds(*final(node)).parts == expr_holds(*old(node)).parts.map_values(
            |part: ExprNode|
                placed(
                    part,
                    old(visitor).is_browser,
                    old(visitor).env_view(),
                    transform::ident_set(old(visitor).decls@),
                ),
        ),
{
    node.visit_mut_children_with(visitor);
}

impl VisitMut for EnvReplacer {
    /// Puts what takes the place of an expression there; if it stays as it is, its parts
    /// are looked at.
    fn visit_mut_expr(&mut self, node: &mut Expr)
        ensures
            final(self).is_browser == old(self).is_browser,
            final(self).env_view() == old(self).env_view(),
            final(self).decls@ == old(self).decls@,
            expr_holds(*final(node)) == placed(
                expr_holds(*old(node)),
                old(self).is_browser,
                old(self).env_view(),
                transform::ident_set(old(self).decls@),
            ),
    {
        if let Some(member) = to_member(node) {
            if let Some(replacement) = self.replace_member(&member) {
                put(node, replacement);
                assert(expr_holds(*node).parts =~= Seq::empty());
                return ;
            }
        }
        let ghost before = expr_holds(*node);
        let ghost after = placed(
            before,
            self.is_browser,
            self.env_view(),
            transform::ident_set(self.decls@),
        );
        visit_parts(node, self);
        assert(expr_holds(*node).parts =~= after.parts);
    }
}

/// The environment is written into every expression, however deep it stands in others: an
/// expression that is to be replaced is replaced, and in any other all of its parts are
/// seen to.
pub proof fn law_environment_is_written_everywhere(
    node: ExprNode,
    is_browser: bool,
    env: Map<Seq<char>, Seq<char>>,
    decls: Set<(Seq<char>, u32)>,
)
    ensures
        node.says matches ExprView::Member(member) ==> (transform::member_replacement(
            is_browser,
            env,
            *member,
            decls,
        ) matches Some(r) ==> placed(node, is_browser, env, decls).says == (match r {
            ReplacementView::True => ExprView::Other,
            ReplacementView::Text(value) => ExprView::Str(value, Span { lo: 0, hi: 0 }),
            ReplacementView::Undefined => ExprView::Ident(("undefined"@, 0)),
        })),
        !(node.says matches ExprView::Member(member) && transform::member_replacement(
            is_browser,
            env,
            *member,
            decls,
        ) is Some) ==> placed(node, is_browser, env, decls).parts.len() == node.parts.len()
            && forall|i: int|
            0 <= i < node.parts.len() ==> #[trigger] placed(node, is_browser, env, decls).parts[i]
                == placed(node.parts[i], is_browser, env, decls),
        !(node.says is Member) ==> placed(node, is_browser, env, decls).says == node.says,
        node.says matches ExprView::Member(member) ==> (transform::member_replacement(
            is_browser,
            env,
            *member,
            decls,
        ) is Some ==> placed(node, is_browser, env, decls).parts.len() == 0),
        node.says matches ExprView::Member(member) ==> (transform::member_replacement(
            is_browser,
            env,
            *member,
            decls,
        ) is None ==> (placed(node, is_browser, env, decls).says matches ExprView::Member(after)
            && after.prop == member.prop && after.obj == placed(
            ExprNode { says: member.obj, parts: Seq::empty() },
            is_browser,
            env,
            decls,
        ).says)),
{
}

/// What [`write_env`] makes of a tree, given the environment and what the file declares.
pub uninterp spec fn with_env(
    tree: Tree,
    is_browser: bool,
    env: Map<Seq<char>, Seq<char>>,
    decls: Set<(Seq<char>, u32)>,
) -> Tree;

/// `VisitMutWith::visit_mut_with`: takes a visitor to all expressions of a tree. The
/// visitor goes by [`EnvReplacer::replace_member`], so that the outcome depends on the
/// tree, the environment and the set of declarations.
#[verifier::external_body]
pub(crate) fn write_env(tree: Tree, replacer: EnvReplacer) -> (r: Tree)
    ensures
        r == with_env(
            tree,
            replacer.is_browser,
            replacer.env_view(),
            transform::ident_set(replacer.decls@),
        ),
{
    let (mut tree, mut replacer) = (tree, replacer);
    stacker::maybe_grow(STACK_RED_ZONE, STACK_SIZE, || {
        tree.program.visit_mut_with(&mut replacer);
    });
    tree
}

/// A call in a tree: what is called, if it is an expression, the first argument, and the
/// edges that stand in its parts, that is in what is called and in all arguments.
pub struct CallNode {
    pub callee: Option<ExprView>,
    pub first_arg: Option<ExprView>,
    pub inner: Seq<EdgeView>,
}

/// What a call in a tree is.
pub uninterp spec fn call_holds(call: CallExpr) -> CallNode;

pub open spec fn opt_expr_holds(expr: Option<&Expr>) -> Option<ExprView> {
    match expr {
        Some(expr) => Some(expr_holds(*expr).says),
        None => None,
    }
}

/// Takes a `CallExpr` apart: its `callee`, if it is an expression, and the first of its
/// `args`.
#[verifier::external_body]
fn open_call<'a>(call: &'a CallExpr) -> (parts: (Option<&'a Expr>, Option<&'a Expr>))
    ensures
        call_holds(*call).callee == opt_expr_holds(parts.0),
        call_holds(*call).first_arg == opt_expr_holds(parts.1),
{
    let callee: Option<&'a Expr> = match &call.callee {
        Callee::Expr(callee) => Some(&**callee),
        _ => None,
    };
    (callee, call.args.first().map(|arg| &*arg.expr))
}

/// What is called by an identifier, and with which first argument.
pub open spec fn named_call(call: CallNode) -> CallView {
    CallView {
        callee: match call.callee {
            Some(ExprView::Ident(ident)) => Some(ident),
            _ => None,
        },
        first_arg: call.first_arg,
    }
}

/// What a call says.
fn to_call(call: &CallExpr) -> (r: Call)
    ensures
        transform::call_view(r) == named_call(call_holds(*call)),
{
    let (callee, arg) = open_call(call);
    let callee: Option<Ident> = match callee {
        Some(callee) => match open_expr(callee) {
            Node::Ident(ident) => Some(ident),
            _ => None,
        },
        None => None,
    };
    let first_arg: Option<Expression> = match arg {
        Some(arg) => Some(to_expr(arg)),
        None => None,
    };
    Call { callee, first_arg }
}

/// The text after `from` in an `import` or `export`, if there is one, and the edges that
/// stand in its parts.
pub uninterp spec fn source_of(decl: ModuleDecl) -> (Option<Seq<char>>, Seq<EdgeView>);

/// The `src` of a `ModuleDecl`, for the variants that have one.
#[verifier::external_body]
fn decl_source(decl: &ModuleDecl) -> (r: Option<String>)
    ensures
        text::opt_view(r) == source_of(*decl).0,
{
    match decl {
        ModuleDecl::Import(import) => Some(import.src.value.to_atom_lossy().to_string()),
        ModuleDecl::ExportAll(export) => Some(export.src.value.to_atom_lossy().to_string()),
        ModuleDecl::ExportNamed(export) => {
            export.src.as_ref().map(|src| src.value.to_atom_lossy().to_string())
        },
        _ => None,
    }
}

/// The edges that a visitor has come by.
pub struct EdgeList {
    pub edges: Vec<Edge>,
}

/// `VisitWith::visit_children_with`: takes the visitor on to the parts of a call, whose
/// edges it adds to its own.
#[verifier::external_body]
fn visit_call_parts(call: &CallExpr, visitor: &mut EdgeList)
    ensures
        transform::edge_views(final(visitor).edges@) == transform::edge_views(old(visitor).edges@)
            + call_holds(*call).inner,
{
    call.visit_children_with(visitor);
}

/// `VisitWith::visit_children_with`: takes the visitor on to the parts of an `import` or
/// `export`, whose edges it adds to its own.
#[verifier::external_body]
fn visit_decl_parts(decl: &ModuleDecl, visitor: &mut EdgeList)
    ensures
        transform::edge_views(final(visitor).edges@) == transform::edge_views(old(visitor).edges@)
            + source_of(*decl).1,
{
    decl.visit_children_with(visitor);
}

/// The edges that a call gives: those in its parts, and then the call.
pub open spec fn call_edges(call: CallNode) -> Seq<EdgeView> {
    call.inner.push(EdgeView::Call(named_call(call)))
}

/// The edges that an `import` or `export` gives: its source, and then those in its parts.
pub open spec fn decl_edges(decl: (Option<Seq<char>>, Seq<EdgeView>)) -> Seq<EdgeView> {
    match decl.0 {
        Some(source) => seq![EdgeView::Source(source)] + decl.1,
        None => decl.1,
    }
}

impl Visit for EdgeList {
    /// Notes a call, after those in its parts.
    fn visit_call_expr(&mut self, node: &CallExpr)
        ensures
            transform::edge_views(final(self).edges@) == transform::edge_views(old(self).edges@)
                + call_edges(call_holds(*node)),
            transform::edge_views(final(self).edges@) == transform::edge_views(old(self).edges@)
                + call_holds(*node).inner + seq![
                EdgeView::Call(
                    CallView {
                        callee: match call_holds(*node).callee {
                            Some(ExprView::Ident(ident)) => Some(ident),
                            _ => None,
                        },
                        first_arg: call_holds(*node).first_arg,
                    },
                ),
            ],
    {
        visit_call_parts(node, self);
        let call: Call = to_call(node);
        let ghost before = self.edges@;
        self.edges.push(Edge::Call(call));
        assert(transform::edge_views(self.edges@) =~= transform::edge_views(before) + seq![
            EdgeView::Call(transform::call_view(call)),
        ]);
    }

    /// Notes the source of an `import` or `export`, before the calls in its parts.
    fn visit_module_decl(&mut self, node: &ModuleDecl)
        ensures
            transform::edge_views(final(self).edges@) == transform::edge_views(old(self).edges@)
                + decl_edges(source_of(*node)),
            transform::edge_views(final(self).edges@) == transform::edge_views(old(self).edges@) + (
            match source_of(*node).0 {
                Some(source) => seq![EdgeView::Source(source)],
                None => Seq::empty(),
            }) + source_of(*node).1,
    {
        let ghost before = self.edges@;
        if let Some(source) = decl_source(node) {
            self.edges.push(Edge::Source(source));
            assert(transform::edge_views(self.edges@) =~= transform::edge_views(before) + seq![
                EdgeView::Source(source@),
            ]);
        } else {
            assert(transform::edge_views(before) + Seq::<EdgeView>::empty()
                =~= transform::edge_views(before));
        }
        visit_decl_parts(node, self);
    }
}

/// A call never hides what stands in it: whatever is called, a function, a method or
/// anything else, all edges in what is called and in the arguments are found, in their
/// order, and the call itself comes last. It goes by a name only if an identifier is called.
pub proof fn law_edges_inside_a_call_are_found(call: CallNode, edge: EdgeView, i: int)
    ensures
        call.inner.contains(edge) ==> call_edges(call).contains(edge),
        call_edges(call).len() == call.inner.len() + 1,
        0 <= i < call.inner.len() ==> call_edges(call)[i] == call.inner[i],
        call_edges(call).last() matches EdgeView::Call(noted) && noted.first_arg == call.first_arg
            && noted.callee == (match call.callee {
            Some(ExprView::Ident(ident)) => Some(ident),
            _ => None,
        }),
{
    if call.inner.contains(edge) {
        let k = choose|k: int| 0 <= k < call.inner.len() && call.inner[k] == edge;
        assert(call_edges(call)[k] == edge);
    }
}

/// An `import` or `export` from a module is an edge, and what stands in its parts is found
/// behind it, with or without a source.
pub proof fn law_edges_inside_a_declaration_are_found(
    source: Seq<char>,
    inner: Seq<EdgeView>,
    edge: EdgeView,
)
    ensures
        decl_edges((None, inner)) == inner,
        decl_edges((Some(source), inner)).len() == inner.len() + 1,
        decl_edges((Some(source), inner))[0] == EdgeView::Source(source),
        decl_edges((Some(source), inner)).skip(1) == inner,
        inner.contains(edge) ==> decl_edges((Some(source), inner)).contains(edge),
{
    let all = decl_edges((Some(source), inner));
    assert(all.skip(1) =~= inner);
    if inner.contains(edge) {
        let k = choose|k: int| 0 <= k < inner.len() && inner[k] == edge;
        assert(all[k + 1] == edge);
    }
}

/// What [`edges`] finds in a tree.
pub uninterp spec fn edges_in(tree: Tree) -> Seq<EdgeView>;

/// `VisitWith::visit_with`: takes a visitor to all calls, imports and exports of a tree.
/// They come in the order of the code, a call after those in its parts.
#[verifier::external_body]
pub(crate) fn edges(tree: &Tree) -> (r: Vec<Edge>)
    ensures
        transform::edge_views(r@) == edges_in(*tree),
{
    let mut list = EdgeList { edges: Vec::new() };
    stacker::maybe_grow(STACK_RED_ZONE, STACK_SIZE, || tree.program.visit_with(&mut list));
    list.edges
}

/// The texts of the comments that stand after a position, for each position.
pub uninterp spec fn trailing_in(tree: Tree) -> Map<u32, Seq<Seq<char>>>;

/// `SingleThreadedComments::borrow_all`: the trailing comments. The positions come in no
/// particular order.
#[verifier::external_body]
pub(crate) fn trailing_comments(tree: &Tree) -> (r: Vec<(u32, Vec<String>)>)
    ensures
        forall|i: int|
            0 <= i < r@.len() ==> trailing_in(*tree).contains_key((#[trigger] r@[i]).0)
                && trailing_in(*tree)[r@[i].0] == text::views(r@[i].1@),
        forall|pos: u32| #[trigger]
            trailing_in(*tree).contains_key(pos) ==> exists|i: int|
                0 <= i < r@.len() && (#[trigger] r@[i]).0 == pos,
{
    let (_, trailing) = tree.comments.borrow_all();
    let texts = |list: &Vec<Comment>| list.iter().map(|c| c.text.to_string()).collect();
    trailing.iter().map(|(pos, list)| (pos.0, texts(list))).collect()
}

/// A tree without one of its trailing comments.
pub uninterp spec fn without_comment(tree: Tree, pos: u32, index: nat) -> Tree;

/// `SingleThreadedComments::borrow_all_mut`: removes the comment at `index` of those that
/// stand after `pos`.
#[verifier::external_body]
pub(crate) fn remove_comment(tree: Tree, pos: u32, index: usize) -> (r: Tree)
    requires
        trailing_in(tree).contains_key(pos),
        index < trailing_in(tree)[pos].len(),
    ensures
        r == without_comment(tree, pos, index as nat),
        trailing_in(r) == trailing_in(tree).insert(
            pos,
            trailing_in(tree)[pos].remove(index as int),
        ),
{
    if let Some(list) = tree.comments.borrow_all_mut().1.get_mut(&BytePos(pos)) {
        list.remove(index);
    }
    tree
}

/// What a tree is printed as, in as few characters as possible if `minify` is set; or the
/// error that the printing ends in, in its debug form.
pub uninterp spec fn printed(tree: Tree, minify: bool) -> Result<Seq<u8>, Seq<char>>;

/// `Emitter::emit_program`, into a list of bytes.
#[verifier::external_body]
pub(crate) fn print(tree: Tree, minify: bool) -> (r: Result<Vec<u8>, String>)
    ensures
        (match r {
            Ok(bytes) => printed(tree, minify) == Ok::<Seq<u8>, Seq<char>>(bytes@),
            Err(message) => printed(tree, minify) == Err::<Seq<u8>, Seq<char>>(message@),
        }),
{
    stacker::maybe_grow(STACK_RED_ZONE, STACK_SIZE, move || {
        let Tree { program, source_map, comments, .. } = tree;
        let mut buf = Vec::new();
        let wr = JsWriter::new(source_map.clone(), "\n", &mut buf, None);
        let cfg = CodegenConfig::default().with_minify(minify);
        let mut emitter = Emitter { cfg, comments: Some(&comments), cm: source_map.clone(), wr };
        emitter.emit_program(&program).map_err(|err| format!("{:?}", err))?;
        Ok(buf)
    })
}

} // verus!
