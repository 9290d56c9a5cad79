//! The transformation of a file's code into a form that runs in a browser.
//!
//! Here stand the parts of a syntax tree that matter, what is made of them, and the
//! order of it all. The trees themselves are those of [`syntax_tree`].

use vstd::prelude::*;

use crate::app_error::ServerError;
use crate::npm_specifier;
use crate::request;
use crate::str_map;
use crate::str_map::StrMap;
use crate::str_map::StrSet;
use crate::syntax_tree;
use crate::syntax_tree::ParseOptions;
use crate::syntax_tree::Parsed;
use crate::syntax_tree::Tree;
use crate::text;

verus! {

/// An identifier, with the number of the scope that it belongs to.
#[derive(Debug)]
pub struct Ident {
    pub sym: String,
    pub ctxt: u32,
}

/// Where something stands in the code.
#[derive(Debug, Clone, Copy, PartialEq, Eq, Structural)]
pub struct Span {
    pub lo: u32,
    pub hi: u32,
}

/// A piece of a template literal: what it denotes, if that is defined, and how it
/// is written.
#[derive(Debug)]
pub struct Quasi {
    pub cooked: Option<String>,
    pub raw: String,
}

/// An expression, as far as it matters.
#[derive(Debug)]
pub enum Expression {
    Ident(Ident),
    Member(Box<MemberExpr>),
    /// A string literal.
    Str { value: String, span: Span },
    /// A template literal, with the number of expressions in it.
    Tpl { quasis: Vec<Quasi>, exprs: usize, span: Span },
    Other,
}

/// A property that is named in the code, or one that is not.
#[derive(Debug)]
pub enum MemberProp {
    Ident(String),
    Other,
}

/// A property of an object.
#[derive(Debug)]
pub struct MemberExpr {
    pub obj: Expression,
    pub prop: MemberProp,
}

/// A call, as far as it matters: what is called, if it is an identifier, and the
/// first argument.
#[derive(Debug)]
pub struct Call {
    pub callee: Option<Ident>,
    pub first_arg: Option<Expression>,
}

/// Where the code of a file names a module, or may do so: a call, or the source of an
/// `import` or `export`.
#[derive(Debug)]
pub enum Edge {
    Call(Call),
    Source(String),
}

/// What an [`Expression`] says.
pub enum ExprView {
    Ident((Seq<char>, u32)),
    Member(Box<MemberView>),
    Str(Seq<char>, Span),
    Tpl(Seq<(Option<Seq<char>>, Seq<char>)>, nat, Span),
    Other,
}

/// What a [`MemberExpr`] says.
pub struct MemberView {
    pub obj: ExprView,
    pub prop: Option<Seq<char>>,
}

/// What a [`Call`] says.
pub struct CallView {
    pub callee: Option<(Seq<char>, u32)>,
    pub first_arg: Option<ExprView>,
}

/// What an [`Edge`] says.
pub enum EdgeView {
    Call(CallView),
    Source(Seq<char>),
}

/// What an [`Ident`] says.
pub open spec fn ident_view(ident: Ident) -> (Seq<char>, u32) {
    (ident.sym@, ident.ctxt)
}

/// What a [`Quasi`] says.
pub open spec fn quasi_view(quasi: Quasi) -> (Option<Seq<char>>, Seq<char>) {
    (text::opt_view(quasi.cooked), quasi.raw@)
}

pub open spec fn prop_view(prop: MemberProp) -> Option<Seq<char>> {
    match prop {
        MemberProp::Ident(name) => Some(name@),
        MemberProp::Other => None,
    }
}

pub open spec fn expr_view(expr: Expression) -> ExprView
    decreases expr,
{
    match expr {
        Expression::Ident(ident) => ExprView::Ident(ident_view(ident)),
        Expression::Member(member) => ExprView::Member(
            Box::new(MemberView { obj: expr_view(member.obj), prop: prop_view(member.prop) }),
        ),
        Expression::Str { value, span } => ExprView::Str(value@, span),
        Expression::Tpl { quasis, exprs, span } => ExprView::Tpl(
            quasis@.map_values(|q: Quasi| quasi_view(q)),
            exprs as nat,
            span,
        ),
        Expression::Other => ExprView::Other,
    }
}

pub open spec fn member_view(member: MemberExpr) -> MemberView {
    MemberView { obj: expr_view(member.obj), prop: prop_view(member.prop) }
}

pub open spec fn call_view(call: Call) -> CallView {
    CallView {
        callee: match call.callee {
            Some(ident) => Some(ident_view(ident)),
            None => None,
        },
        first_arg: match call.first_arg {
            Some(arg) => Some(expr_view(arg)),
            None => None,
        },
    }
}

pub open spec fn edge_view(edge: Edge) -> EdgeView {
    match edge {
        Edge::Call(call) => EdgeView::Call(call_view(call)),
        Edge::Source(source) => EdgeView::Source(source@),
    }
}

pub open spec fn edge_views(edges: Seq<Edge>) -> Seq<EdgeView> {
    edges.map_values(|e: Edge| edge_view(e))
}

/// The identifiers of a list.
pub open spec fn ident_set(idents: Seq<Ident>) -> Set<(Seq<char>, u32)> {
    Set::new(
        |ident: (Seq<char>, u32)|
            exists|i: int| 0 <= i < idents.len() && ident_view(#[trigger] idents[i]) == ident,
    )
}

/// True when `member` is the chain of properties that `idents` names, from an
/// object on that is not declared in the file.
pub open spec fn matches_chain(
    member: MemberView,
    idents: Seq<Seq<char>>,
    decls: Set<(Seq<char>, u32)>,
) -> bool
    decreases member,
{
    &&& idents.len() >= 2
    &&& member.prop == Some(idents.last())
    &&& match member.obj {
        ExprView::Member(inner) => matches_chain(*inner, idents.drop_last(), decls),
        ExprView::Ident(ident) => idents.len() == 2 && ident.0 == idents[0] && !decls.contains(
            ident,
        ),
        _ => false,
    }
}

/// True of an identifier that is declared in the file.
pub fn contains_ident(decls: &Vec<Ident>, ident: &Ident) -> (r: bool)
    ensures
        r == ident_set(decls@).contains(ident_view(*ident)),
{
    let mut i: usize = 0;
    while i < decls.len()
        invariant
            i <= decls@.len(),
            forall|j: int|
                0 <= j < i ==> ident_view(#[trigger] decls@[j]) != (ident.sym@, ident.ctxt),
        decreases decls.len() - i,
    {
        if decls[i].ctxt == ident.ctxt && text::same_text(
            decls[i].sym.as_str(),
            ident.sym.as_str(),
        ) {
            assert(ident_view(decls@[i as int]) == (ident.sym@, ident.ctxt));
            return true;
        }
        i += 1;
    }
    false
}

/// What string slices hold.
pub open spec fn slice_views(slices: Seq<&str>) -> Seq<Seq<char>> {
    slices.map_values(|s: &str| s@)
}

/// True when `expr` is the chain of properties that `idents` names.
pub fn match_member_expr(expr: &MemberExpr, idents: Vec<&str>, decls: &Vec<Ident>) -> (r: bool)
    ensures
        r == matches_chain(member_view(*expr), slice_views(idents@), ident_set(decls@)),
{
    let mut member: &MemberExpr = expr;
    let mut len: usize = idents.len();
    assert(slice_views(idents@).take(len as int) =~= slice_views(idents@));
    while len > 1
        invariant
            len <= idents@.len(),
            matches_chain(member_view(*expr), slice_views(idents@), ident_set(decls@))
                == matches_chain(
                member_view(*member),
                slice_views(idents@).take(len as int),
                ident_set(decls@),
            ),
        decreases len,
    {
        let ghost names = slice_views(idents@).take(len as int);
        let named: bool = match &member.prop {
            MemberProp::Ident(name) => text::same_text(name.as_str(), idents[len - 1]),
            MemberProp::Other => false,
        };
        if !named {
            return false;
        }
        assert(names.drop_last() =~= slice_views(idents@).take(len - 1));
        match &member.obj {
            Expression::Member(inner) => {
                member = inner;
                len -= 1;
            },
            Expression::Ident(ident) => {
                return len == 2 && text::same_text(ident.sym.as_str(), idents[0])
                    && !contains_ident(decls, ident);
            },
            _ => {
                return false;
            },
        }
    }
    false
}

/// The text that an expression denotes, if it is a plain string: a string literal,
/// or a template literal without expressions.
pub open spec fn string_value(node: ExprView) -> Option<(Seq<char>, Span)> {
    match node {
        ExprView::Str(value, span) => Some((value, span)),
        ExprView::Tpl(quasis, exprs, span) => if quasis.len() == 1 && exprs == 0 {
            match quasis[0] {
                (Some(cooked), _) => Some((cooked, span)),
                (None, raw) => Some((raw, span)),
            }
        } else {
            None
        },
        _ => None,
    }
}

pub fn match_str(node: &Expression) -> (r: Option<(String, Span)>)
    ensures
        (match r {
            Some((value, span)) => string_value(expr_view(*node)) == Some((value@, span)),
            None => string_value(expr_view(*node)) is None,
        }),
{
    match node {
        Expression::Str { value, span } => Some((value.clone(), *span)),
        Expression::Tpl { quasis, exprs, span } => {
            if quasis.len() != 1 || *exprs != 0 {
                return None;
            }
            match &quasis[0].cooked {
                Some(cooked) => Some((cooked.clone(), *span)),
                None => Some((quasis[0].raw.clone(), *span)),
            }
        },
        _ => None,
    }
}

/// What takes the place of an expression.
#[derive(Debug)]
pub enum Replacement {
    True,
    Text(String),
    Undefined,
}

/// What a [`Replacement`] says.
#[verifier::ext_equal]
pub enum ReplacementView {
    True,
    Text(Seq<char>),
    Undefined,
}

impl View for Replacement {
    type V = ReplacementView;

    open spec fn view(&self) -> ReplacementView {
        match self {
            Replacement::True => ReplacementView::True,
            Replacement::Text(s) => ReplacementView::Text(s@),
            Replacement::Undefined => ReplacementView::Undefined,
        }
    }
}

pub open spec fn opt_replacement_view(r: Option<Replacement>) -> Option<ReplacementView> {
    match r {
        Some(r) => Some(r@),
        None => None,
    }
}

/// True of the names that every object has a property of.
pub open spec fn object_method(sym: Seq<char>) -> bool {
    ||| sym == "hasOwnProperty"@
    ||| sym == "isPrototypeOf"@
    ||| sym == "propertyIsEnumerable"@
    ||| sym == "toLocaleString"@
    ||| sym == "toSource"@
    ||| sym == "toString"@
    ||| sym == "valueOf"@
}

/// What takes the place of a variable of the environment: its value, or `undefined`
/// if that is wanted and the variable is none of the methods of an object.
pub open spec fn env_replacement(
    env: Map<Seq<char>, Seq<char>>,
    sym: Seq<char>,
    fallback_undefined: bool,
) -> Option<ReplacementView> {
    if env.contains_key(sym) {
        Some(ReplacementView::Text(env[sym]))
    } else if fallback_undefined && !object_method(sym) {
        Some(ReplacementView::Undefined)
    } else {
        None
    }
}

/// What takes the place of an expression: `process.browser` is true in a browser, and
/// `process.env.<NAME>` is what the environment says.
pub open spec fn member_replacement(
    is_browser: bool,
    env: Map<Seq<char>, Seq<char>>,
    member: MemberView,
    decls: Set<(Seq<char>, u32)>,
) -> Option<ReplacementView> {
    if is_browser && matches_chain(member, seq!["process"@, "browser"@], decls) {
        Some(ReplacementView::True)
    } else {
        match (member.obj, member.prop) {
            (ExprView::Member(inner), Some(sym)) => if matches_chain(
                *inner,
                seq!["process"@, "env"@],
                decls,
            ) {
                env_replacement(env, sym, true)
            } else {
                None
            },
            _ => None,
        }
    }
}

/// Writes the environment into the code.
#[derive(Debug)]
pub struct EnvReplacer {
    pub is_browser: bool,
    pub env: StrMap<String>,
    /// The identifiers that are declared in the file.
    pub decls: Vec<Ident>,
}

impl EnvReplacer {
    /// The environment.
    pub open spec fn env_view(&self) -> Map<Seq<char>, Seq<char>> {
        str_map::map_of(str_map::pairs(self.env))
    }

    /// What takes the place of a variable of the environment.
    pub fn replace(&self, sym: &str, fallback_undefined: bool) -> (r: Option<Replacement>)
        ensures
            opt_replacement_view(r) == env_replacement(self.env_view(), sym@, fallback_undefined),
    {
        if let Some(value) = str_map::find_text(&self.env, sym) {
            return Some(Replacement::Text(value));
        }
        if fallback_undefined && !is_object_method(sym) {
            return Some(Replacement::Undefined);
        }
        None
    }

    /// What takes the place of an expression; `None` when it stays as it is.
    pub fn replace_member(&self, member: &MemberExpr) -> (r: Option<Replacement>)
        ensures
            opt_replacement_view(r) == member_replacement(
                self.is_browser,
                self.env_view(),
                member_view(*member),
                ident_set(self.decls@),
            ),
    {
        let browser: Vec<&str> = vec!["process", "browser"];
        assert(slice_views(browser@) =~= seq!["process"@, "browser"@]);
        if self.is_browser && match_member_expr(member, browser, &self.decls) {
            return Some(Replacement::True);
        }
        let env: Vec<&str> = vec!["process", "env"];
        assert(slice_views(env@) =~= seq!["process"@, "env"@]);
        if let Expression::Member(inner) = &member.obj {
            if let MemberProp::Ident(sym) = &member.prop {
                if match_member_expr(inner, env, &self.decls) {
                    return self.replace(sym.as_str(), true);
                }
            }
        }
        None
    }
}

fn is_object_method(sym: &str) -> (r: bool)
    ensures
        r == object_method(sym@),
{
    text::same_text(sym, "hasOwnProperty") || text::same_text(sym, "isPrototypeOf")
        || text::same_text(sym, "propertyIsEnumerable") || text::same_text(sym, "toLocaleString")
        || text::same_text(sym, "toSource") || text::same_text(sym, "toString") || text::same_text(
        sym,
        "valueOf",
    )
}

/// The environment that code is transformed for.
pub open spec fn browser_env() -> Map<Seq<char>, Seq<char>> {
    map!["NODE_ENV"@ => "development"@]
}

pub fn build_env() -> (env: StrMap<String>)
    ensures
        str_map::pairs(env) == seq![("NODE_ENV"@, "development"@)],
        str_map::map_of(str_map::pairs(env)) == browser_env(),
{
    let mut env: StrMap<String> = StrMap::new();
    env.insert("NODE_ENV".to_string(), "development".to_string());
    assert(str_map::pairs(env) =~= seq![("NODE_ENV"@, "development"@)]);
    assert(str_map::map_of(str_map::pairs(env)) =~= browser_env()) by {
        let none = Seq::<(Seq<char>, Seq<char>)>::empty();
        assert(str_map::pairs(env).drop_last() =~= none);
        assert(str_map::map_of(none) =~= Map::empty());
    }
    env
}

/// The specifier that a call asks for: the string that `require` is called with,
/// unless `require` is declared in the file.
pub open spec fn required(call: CallView, decls: Set<(Seq<char>, u32)>) -> Option<Seq<char>> {
    match (call.callee, call.first_arg) {
        (Some(callee), Some(arg)) => if callee.0 == "require"@ && !decls.contains(callee) {
            match string_value(arg) {
                Some((value, _)) => Some(value),
                None => None,
            }
        } else {
            None
        },
        _ => None,
    }
}

/// The specifiers with one more, if the package graph can act on it.
pub open spec fn with_specifier(items: Seq<Seq<char>>, specifier: Seq<char>) -> Seq<Seq<char>> {
    if npm_specifier::module_specifier(specifier) is None || items.contains(specifier) {
        items
    } else {
        items.push(specifier)
    }
}

/// The specifiers with that of an edge.
pub open spec fn with_edge(
    items: Seq<Seq<char>>,
    edge: EdgeView,
    decls: Set<(Seq<char>, u32)>,
) -> Seq<Seq<char>> {
    match edge {
        EdgeView::Call(call) => match required(call, decls) {
            Some(specifier) => with_specifier(items, specifier),
            None => items,
        },
        EdgeView::Source(specifier) => with_specifier(items, specifier),
    }
}

/// The specifiers that the edges of a file give, each once, in the order in which they
/// come up.
pub open spec fn collected(edges: Seq<EdgeView>, decls: Set<(Seq<char>, u32)>) -> Seq<Seq<char>>
    decreases edges.len(),
{
    if edges.len() == 0 {
        Seq::empty()
    } else {
        with_edge(collected(edges.drop_last(), decls), edges.last(), decls)
    }
}

/// Collects the modules that a file asks for.
#[derive(Debug)]
pub struct DependencyCollector {
    pub items: StrSet,
    /// The identifiers that are declared in the file.
    pub decls: Vec<Ident>,
}

impl DependencyCollector {
    /// Takes a specifier, if the package graph can act on it.
    pub fn consider(&mut self, specifier: &str)
        ensures
            final(self).items.items() == with_specifier(old(self).items.items(), specifier@),
            final(self).decls == old(self).decls,
    {
        proof {
            self.items.lemma_items();
        }
        if npm_specifier::parse_module_specifier(specifier).is_some() {
            self.items.insert(specifier.to_string());
        }
    }

    /// Takes what a call asks for.
    pub fn consider_call(&mut self, call: &Call)
        ensures
            final(self).items.items() == with_edge(
                old(self).items.items(),
                EdgeView::Call(call_view(*call)),
                ident_set(old(self).decls@),
            ),
            final(self).decls == old(self).decls,
    {
        let callee: &Ident = match &call.callee {
            Some(callee) => callee,
            None => {
                return ;
            },
        };
        if contains_ident(&self.decls, callee) {
            return ;
        }
        if !text::same_text(callee.sym.as_str(), "require") {
            return ;
        }
        if let Some(arg) = &call.first_arg {
            if let Some((specifier, _)) = match_str(arg) {
                self.consider(specifier.as_str());
            }
        }
    }
}

/// The modules that a file asks for, given its edges and what it declares.
pub fn collect_edges(edges: &Vec<Edge>, decls: Vec<Ident>) -> (items: StrSet)
    ensures
        items.items() == collected(edge_views(edges@), ident_set(decls@)),
{
    let mut collector = DependencyCollector { items: StrSet::new(), decls };
    let ghost declared = ident_set(decls@);
    let ghost views = edge_views(edges@);
    let mut i: usize = 0;
    assert(views.take(0) =~= Seq::empty());
    while i < edges.len()
        invariant
            i <= edges@.len(),
            views == edge_views(edges@),
            declared == ident_set(collector.decls@),
            collector.items.items() == collected(views.take(i as int), declared),
        decreases edges.len() - i,
    {
        assert(views.take(i + 1).drop_last() =~= views.take(i as int));
        assert(views.take(i + 1).last() == edge_view(edges@[i as int]));
        match &edges[i] {
            Edge::Call(call) => {
                collector.consider_call(call);
            },
            Edge::Source(source) => {
                collector.consider(source.as_str());
            },
        }
        i += 1;
    }
    assert(views.take(i as int) =~= views);
    collector.items
}

/// A file after its transformation: its code, and the modules that it asks for.
#[derive(Debug)]
pub struct TransformedFile {
    pub content: String,
    pub dependencies: StrSet,
}

/// What is collected is relative or belongs to a package: a URI never gets in.
pub proof fn law_collected_specifiers_are_edges(
    edges: Seq<EdgeView>,
    decls: Set<(Seq<char>, u32)>,
    item: Seq<char>,
)
    requires
        collected(edges, decls).contains(item),
    ensures
        npm_specifier::module_specifier(item) is Some,
    decreases edges.len(),
{
    let all = collected(edges, decls);
    let k = choose|k: int| 0 <= k < all.len() && all[k] == item;
    if edges.len() > 0 {
        let before = collected(edges.drop_last(), decls);
        if k < before.len() {
            assert(before[k] == item);
            assert(before.contains(item));
            law_collected_specifiers_are_edges(edges.drop_last(), decls, item);
        }
    }
}

/// A `require` that the file declares itself asks for nothing.
pub proof fn law_shadowed_require_is_ignored(call: CallView, decls: Set<(Seq<char>, u32)>)
    requires
        call.callee is Some,
        decls.contains(call.callee->0),
    ensures
        required(call, decls) is None,
{
}

/// A `process` that the file declares itself is left alone.
pub proof fn law_shadowed_process_is_kept(
    is_browser: bool,
    env: Map<Seq<char>, Seq<char>>,
    process: (Seq<char>, u32),
    prop: Option<Seq<char>>,
    name: Option<Seq<char>>,
    decls: Set<(Seq<char>, u32)>,
)
    requires
        decls.contains(process),
    ensures
        member_replacement(
            is_browser,
            env,
            MemberView { obj: ExprView::Ident(process), prop },
            decls,
        ) is None,
        member_replacement(
            is_browser,
            env,
            MemberView {
                obj: ExprView::Member(
                    Box::new(MemberView { obj: ExprView::Ident(process), prop }),
                ),
                prop: name,
            },
            decls,
        ) is None,
{
    let inner = MemberView { obj: ExprView::Ident(process), prop };
    let browser = seq!["process"@, "browser"@];
    let env_chain = seq!["process"@, "env"@];
    assert(!matches_chain(inner, browser, decls));
    assert(!matches_chain(inner, env_chain, decls));
    assert(!matches_chain(inner, browser.drop_last(), decls));
}

/// Two names are the chain of a property of that name, read from an identifier that the
/// file does not declare; a longer chain goes on from a shorter one.
pub proof fn law_chains_of_properties(
    member: MemberView,
    decls: Set<(Seq<char>, u32)>,
    first: Seq<char>,
    second: Seq<char>,
    names: Seq<Seq<char>>,
    name: Seq<char>,
)
    ensures
        matches_chain(member, seq![first, second], decls) <==> (member.prop == Some(second)
            && (member.obj matches ExprView::Ident(ident) && ident.0 == first && !decls.contains(
            ident,
        ))),
        names.len() < 2 ==> !matches_chain(member, names, decls),
        names.len() >= 2 ==> (matches_chain(member, names.push(name), decls) <==> (member.prop
            == Some(name) && (member.obj matches ExprView::Member(inner) && matches_chain(
            *inner,
            names,
            decls,
        )))),
{
    let two = seq![first, second];
    assert(two.last() == second);
    if let ExprView::Member(inner) = member.obj {
        assert(two.drop_last().len() == 1);
        assert(!matches_chain(*inner, two.drop_last(), decls));
    }
    assert(names.push(name).drop_last() =~= names);
}

/// An expression denotes a text if it is a string literal, or a template literal of one
/// piece; that of a piece whose escapes are not valid is as it is written.
pub proof fn law_plain_strings(node: ExprView, value: Seq<char>, span: Span)
    ensures
        string_value(node) == Some((value, span)) <==> node == ExprView::Str(value, span) || (node
            matches ExprView::Tpl(quasis, exprs, s) && s == span && quasis.len() == 1 && exprs == 0
            && (quasis[0].0 == Some(value) || (quasis[0].0 is None && quasis[0].1 == value))),
{
}

/// What is written into the code: `process.browser` becomes true in a browser, and
/// `process.env.<NAME>` becomes the value of the variable, or `undefined` where there is
/// none, unless every object has a method of that name. All else stays, and so does all of
/// it where the file declares `process`.
pub proof fn law_what_the_environment_replaces(
    is_browser: bool,
    env: Map<Seq<char>, Seq<char>>,
    member: MemberView,
    decls: Set<(Seq<char>, u32)>,
)
    ensures
        member_replacement(is_browser, env, member, decls) == (if member.obj
            matches ExprView::Ident(process) && process.0 == "process"@ && !decls.contains(process)
            && member.prop == Some("browser"@) && is_browser {
            Some(ReplacementView::True)
        } else if member.obj matches ExprView::Member(inner) && (inner.obj matches ExprView::Ident(
            process,
        ) && process.0 == "process"@ && !decls.contains(process)) && inner.prop == Some("env"@)
            && member.prop is Some {
            let name = member.prop->0;
            if env.contains_key(name) {
                Some(ReplacementView::Text(env[name]))
            } else if seq![
                "hasOwnProperty"@,
                "isPrototypeOf"@,
                "propertyIsEnumerable"@,
                "toLocaleString"@,
                "toSource"@,
                "toString"@,
                "valueOf"@,
            ].contains(name) {
                None
            } else {
                Some(ReplacementView::Undefined)
            }
        } else {
            None
        }),
{
    let none = Seq::<Seq<char>>::empty();
    law_chains_of_properties(member, decls, "process"@, "browser"@, none, "process"@);
    if let ExprView::Member(inner) = member.obj {
        law_chains_of_properties(*inner, decls, "process"@, "env"@, none, "process"@);
        if let Some(name) = member.prop {
            let methods = seq![
                "hasOwnProperty"@,
                "isPrototypeOf"@,
                "propertyIsEnumerable"@,
                "toLocaleString"@,
                "toSource"@,
                "toString"@,
                "valueOf"@,
            ];
            assert(methods[0] == "hasOwnProperty"@ && methods[1] == "isPrototypeOf"@ && methods[2]
                == "propertyIsEnumerable"@ && methods[3] == "toLocaleString"@ && methods[4]
                == "toSource"@ && methods[5] == "toString"@ && methods[6] == "valueOf"@);
            assert(methods.contains(name) <==> object_method(name));
        }
    }
}

/// Code runs as in development: `NODE_ENV` says so, and there is no other variable.
pub proof fn law_environment_of_the_browser(name: Seq<char>)
    ensures
        browser_env().contains_key(name) <==> name == "NODE_ENV"@,
        browser_env()["NODE_ENV"@] == "development"@,
{
}

/// A file asks for what it calls `require` with, if that is a plain string and `require`
/// is not its own.
pub proof fn law_what_a_call_requires(
    call: CallView,
    decls: Set<(Seq<char>, u32)>,
    specifier: Seq<char>,
)
    ensures
        required(call, decls) == Some(specifier) <==> (call.callee matches Some(callee) && callee.0
            == "require"@ && !decls.contains(callee) && (call.first_arg matches Some(arg) && ((arg
            matches ExprView::Str(value, _) && value == specifier) || (arg matches ExprView::Tpl(
            quasis,
            exprs,
            _,
        ) && quasis.len() == 1 && exprs == 0 && (quasis[0].0 == Some(specifier) || (quasis[0].0
            is None && quasis[0].1 == specifier)))))),
{
    if let Some(arg) = call.first_arg {
        match string_value(arg) {
            Some((value, span)) => {
                law_plain_strings(arg, value, span);
                law_plain_strings(arg, specifier, span);
            },
            None => {
                if let ExprView::Str(_, span) = arg {
                    law_plain_strings(arg, specifier, span);
                }
                if let ExprView::Tpl(_, _, span) = arg {
                    law_plain_strings(arg, specifier, span);
                }
            },
        }
    }
}

/// What is collected comes in the order of the code, each specifier once: one more edge
/// adds its specifier at the end, if it names something and has not come up before.
pub proof fn law_edges_are_collected_in_order(
    edges: Seq<EdgeView>,
    decls: Set<(Seq<char>, u32)>,
    source: Seq<char>,
    call: CallView,
)
    ensures
        collected(Seq::empty(), decls) == Seq::<Seq<char>>::empty(),
        collected(edges.push(EdgeView::Source(source)), decls) == (
        if npm_specifier::module_specifier(source) is Some && !collected(edges, decls).contains(
            source,
        ) {
            collected(edges, decls).push(source)
        } else {
            collected(edges, decls)
        }),
        required(call, decls) is None ==> collected(edges.push(EdgeView::Call(call)), decls)
            == collected(edges, decls),
        required(call, decls) == Some(source) ==> collected(
            edges.push(EdgeView::Call(call)),
            decls,
        ) == collected(edges.push(EdgeView::Source(source)), decls),
{
    assert(edges.push(EdgeView::Source(source)).drop_last() =~= edges);
    assert(edges.push(EdgeView::Call(call)).drop_last() =~= edges);
}

/// A specifier is collected if and only if it is relative or belongs to a package, and
/// some edge of the file gives it: an `import` or `export` from it, or a call of a
/// `require` that is not declared in the file, on that string. Nothing is collected twice.
pub proof fn law_what_is_collected(
    edges: Seq<EdgeView>,
    decls: Set<(Seq<char>, u32)>,
    item: Seq<char>,
)
    ensures
        collected(edges, decls).no_duplicates(),
        collected(edges, decls).contains(item) <==> npm_specifier::module_specifier(item) is Some
            && exists|i: int|
            0 <= i < edges.len() && match #[trigger] edges[i] {
                EdgeView::Source(source) => source == item,
                EdgeView::Call(call) => call.callee matches Some(callee) && callee.0 == "require"@
                    && !decls.contains(callee) && (call.first_arg matches Some(arg) && ((arg
                    matches ExprView::Str(value, _) && value == item) || (arg
                    matches ExprView::Tpl(quasis, exprs, _) && quasis.len() == 1 && exprs == 0 && (
                quasis[0].0 == Some(item) || (quasis[0].0 is None && quasis[0].1 == item))))),
            },
    decreases edges.len(),
{
    if edges.len() > 0 {
        let init = edges.drop_last();
        law_what_is_collected(init, decls, item);
        let before = collected(init, decls);
        let all = collected(edges, decls);
        let given = match edges.last() {
            EdgeView::Source(source) => Some(source),
            EdgeView::Call(call) => required(call, decls),
        };
        if let EdgeView::Call(call) = edges.last() {
            law_what_a_call_requires(call, decls, item);
        }
        assert(all == match given {
            Some(specifier) => with_specifier(before, specifier),
            None => before,
        });
        let gives = |edge: EdgeView|
            match edge {
                EdgeView::Source(source) => source == item,
                EdgeView::Call(call) => required(call, decls) == Some(item),
            };
        assert forall|i: int| 0 <= i < edges.len() implies gives(#[trigger] edges[i]) == match edges[i] {
            EdgeView::Source(source) => source == item,
            EdgeView::Call(call) => call.callee matches Some(callee) && callee.0 == "require"@
                && !decls.contains(callee) && (call.first_arg matches Some(arg) && ((arg
                matches ExprView::Str(value, _) && value == item) || (arg matches ExprView::Tpl(
                quasis,
                exprs,
                _,
            ) && quasis.len() == 1 && exprs == 0 && (quasis[0].0 == Some(item) || (quasis[0].0
                is None && quasis[0].1 == item))))),
        } by {
            if let EdgeView::Call(call) = edges[i] {
                law_what_a_call_requires(call, decls, item);
            }
        }
        assert forall|i: int| 0 <= i < init.len() implies #[trigger] init[i] == edges[i] by {}
        assert((exists|i: int| 0 <= i < edges.len() && gives(#[trigger] edges[i])) <==> gives(
            edges.last(),
        ) || (exists|i: int| 0 <= i < init.len() && gives(#[trigger] init[i]))) by {
            if exists|i: int| 0 <= i < edges.len() && gives(#[trigger] edges[i]) {
                let i = choose|i: int| 0 <= i < edges.len() && gives(#[trigger] edges[i]);
                if i < init.len() {
                    assert(init[i] == edges[i]);
                }
            }
            if exists|i: int| 0 <= i < init.len() && gives(#[trigger] init[i]) {
                let i = choose|i: int| 0 <= i < init.len() && gives(#[trigger] init[i]);
                assert(init[i] == edges[i]);
            }
            assert(edges[edges.len() - 1] == edges.last());
        }
        assert(gives(edges.last()) <==> given == Some(item));
        if before.contains(item) {
            let k = choose|k: int| 0 <= k < before.len() && before[k] == item;
            assert(all[k] == item);
        } else if all.contains(item) {
            let k = choose|k: int| 0 <= k < all.len() && all[k] == item;
            if k < before.len() {
                assert(before[k] == item);
            }
        } else if npm_specifier::module_specifier(item) is Some && given == Some(item) {
            assert(all.last() == item);
        }
    }
}

/// Only files whose name ends in `js` are transformed: `.js`, `.cjs`, `.mjs`.
pub fn check_javascript(filename: &str) -> (r: Result<(), ServerError>)
    ensures
        seq!['j', 's'].is_suffix_of(filename@) ==> r is Ok,
        !seq!['j', 's'].is_suffix_of(filename@) ==> (r matches Err(
            ServerError::SWCParseError { message },
        ) && message@ == "File "@ + filename@ + " is not JavaScript"@),
{
    let chars: Vec<char> = text::to_chars(filename);
    let len: usize = chars.len();
    if len >= 2 && chars[len - 2] == 'j' && chars[len - 1] == 's' {
        assert(filename@.skip(len - 2) =~= seq!['j', 's']);
        return Ok(());
    }
    proof {
        if seq!['j', 's'].is_suffix_of(filename@) {
            assert(seq!['j', 's'][0] == filename@[len - 2]);
            assert(seq!['j', 's'][1] == filename@[len - 1]);
        }
    }
    let mut message: String = "File ".to_string();
    message.append(filename);
    message.append(" is not JavaScript");
    Err(ServerError::SWCParseError { message })
}

/// True of a comment that tells where the source map of a file is.
pub open spec fn names_source_map(comment: Seq<char>) -> bool {
    "# sourceMappingURL"@.is_prefix_of(comment)
}

/// Where the first comment from `from` on stands that tells where the source map of the
/// file is; the end, if there is none.
pub open spec fn source_map_index(comments: Seq<Seq<char>>, from: int) -> int
    decreases comments.len() - from,
{
    if from < 0 || from >= comments.len() || names_source_map(comments[from]) {
        from
    } else {
        source_map_index(comments, from + 1)
    }
}

/// Where the first comment stands that is to be removed, for it tells where the
/// source map of the file is.
pub fn source_map_comment(comments: &Vec<String>) -> (r: Option<usize>)
    ensures
        (match r {
            Some(i) => i < comments@.len() && i == source_map_index(text::views(comments@), 0),
            None => source_map_index(text::views(comments@), 0) == comments@.len(),
        }),
{
    let mut i: usize = 0;
    while i < comments.len()
        invariant
            i <= comments@.len(),
            source_map_index(text::views(comments@), 0) == source_map_index(
                text::views(comments@),
                i as int,
            ),
        decreases comments.len() - i,
    {
        assert(text::views(comments@)[i as int] == comments@[i as int]@);
        if text::starts_with_text(comments[i].as_str(), "# sourceMappingURL") {
            return Some(i);
        }
        i += 1;
    }
    None
}

/// The tree after the first comment that names a source map has been removed from each
/// of the lists that stand after the positions below `end`, `lists` being all lists.
pub open spec fn unmapped(tree: Tree, lists: Map<u32, Seq<Seq<char>>>, end: nat) -> Tree
    decreases end,
{
    if end == 0 {
        tree
    } else {
        let pos = (end - 1) as u32;
        let before = unmapped(tree, lists, (end - 1) as nat);
        if names_a_map(lists, pos) {
            syntax_tree::without_comment(before, pos, source_map_index(lists[pos], 0) as nat)
        } else {
            before
        }
    }
}

/// True of a position that a comment stands after which names a source map.
pub open spec fn names_a_map(lists: Map<u32, Seq<Seq<char>>>, pos: u32) -> bool {
    lists.contains_key(pos) && source_map_index(lists[pos], 0) < lists[pos].len()
}

/// The tree without the comments that tell where the source map of the file is.
pub open spec fn without_source_map(tree: Tree) -> Tree {
    unmapped(tree, syntax_tree::trailing_in(tree), 0x1_0000_0000)
}

proof fn lemma_source_map_index(comments: Seq<Seq<char>>, from: int)
    requires
        0 <= from <= comments.len(),
    ensures
        from <= source_map_index(comments, from) <= comments.len(),
    decreases comments.len() - from,
{
    if from < comments.len() && !names_source_map(comments[from]) {
        lemma_source_map_index(comments, from + 1);
    }
}

/// A comment names a source map if it begins with `# sourceMappingURL`, and the first one
/// that does is the one that is found.
pub proof fn law_first_source_map_comment(comments: Seq<Seq<char>>, from: int)
    requires
        0 <= from <= comments.len(),
    ensures
        from <= source_map_index(comments, from) <= comments.len(),
        source_map_index(comments, from) < comments.len() ==> "# sourceMappingURL"@.is_prefix_of(
            comments[source_map_index(comments, from)],
        ),
        forall|i: int|
            from <= i < source_map_index(comments, from) ==> !"# sourceMappingURL"@.is_prefix_of(
                #[trigger] comments[i],
            ),
    decreases comments.len() - from,
{
    if from < comments.len() && !names_source_map(comments[from]) {
        law_first_source_map_comment(comments, from + 1);
    }
}

/// After each position the first comment that names a source map goes, if there is one;
/// no other comment does. All positions are gone through.
pub proof fn law_one_comment_goes_per_position(
    tree: Tree,
    lists: Map<u32, Seq<Seq<char>>>,
    pos: u32,
    i: int,
)
    ensures
        without_source_map(tree) == unmapped(tree, syntax_tree::trailing_in(tree), 4_294_967_296),
        unmapped(tree, lists, 0) == tree,
        lists.contains_key(pos) && 0 <= i < lists[pos].len() && "# sourceMappingURL"@.is_prefix_of(
            lists[pos][i],
        ) && (forall|j: int|
            0 <= j < i ==> !"# sourceMappingURL"@.is_prefix_of(#[trigger] lists[pos][j]))
            ==> unmapped(tree, lists, (pos + 1) as nat) == syntax_tree::without_comment(
            unmapped(tree, lists, pos as nat),
            pos,
            i as nat,
        ),
        !lists.contains_key(pos) || (forall|j: int|
            0 <= j < lists[pos].len() ==> !"# sourceMappingURL"@.is_prefix_of(
                #[trigger] lists[pos][j],
            )) ==> unmapped(tree, lists, (pos + 1) as nat) == unmapped(tree, lists, pos as nat),
{
    if lists.contains_key(pos) {
        law_first_source_map_comment(lists[pos], 0);
        let found = source_map_index(lists[pos], 0);
        assert(found < lists[pos].len() ==> "# sourceMappingURL"@.is_prefix_of(lists[pos][found]));
    }
}

/// Positions after which no source map is named change nothing.
proof fn lemma_unmapped_gap(tree: Tree, lists: Map<u32, Seq<Seq<char>>>, from: nat, to: nat)
    requires
        from <= to <= 0x1_0000_0000,
        forall|pos: u32| from <= pos < to ==> !#[trigger] names_a_map(lists, pos),
    ensures
        unmapped(tree, lists, to) == unmapped(tree, lists, from),
    decreases to - from,
{
    if from < to {
        lemma_unmapped_gap(tree, lists, from, (to - 1) as nat);
        assert(!names_a_map(lists, (to - 1) as u32));
    }
}

/// `found` is the place of the comment in a list that names a source map.
spec fn is_found(list: (u32, Vec<String>), found: (u32, usize)) -> bool {
    &&& found.0 == list.0
    &&& found.1 < list.1@.len()
    &&& found.1 == source_map_index(text::views(list.1@), 0)
}

/// `found` belongs to one of the first `n` lists.
spec fn comes_from(lists: Seq<(u32, Vec<String>)>, n: int, found: (u32, usize)) -> bool {
    exists|i: int| 0 <= i < n && is_found(#[trigger] lists[i], found)
}

/// Where the comments stand that are to be removed.
fn source_map_comments(lists: &Vec<(u32, Vec<String>)>) -> (found: Vec<(u32, usize)>)
    ensures
        forall|k: int|
            0 <= k < found@.len() ==> comes_from(lists@, lists@.len() as int, #[trigger] found@[k]),
        forall|i: int|
            0 <= i < lists@.len() && source_map_index(
                text::views((#[trigger] lists@[i]).1@),
                0,
            ) < lists@[i].1@.len() ==> exists|k: int|
                0 <= k < found@.len() && (#[trigger] found@[k]).0 == lists@[i].0,
{
    let mut found: Vec<(u32, usize)> = Vec::new();
    let mut n: usize = 0;
    while n < lists.len()
        invariant
            n <= lists@.len(),
            forall|k: int|
                0 <= k < found@.len() ==> comes_from(lists@, n as int, #[trigger] found@[k]),
            forall|i: int|
                0 <= i < n && source_map_index(text::views((#[trigger] lists@[i]).1@), 0)
                    < lists@[i].1@.len() ==> exists|k: int|
                    0 <= k < found@.len() && (#[trigger] found@[k]).0 == lists@[i].0,
        decreases lists.len() - n,
    {
        let ghost before = found@;
        if let Some(index) = source_map_comment(&lists[n].1) {
            found.push((lists[n].0, index));
            assert(found@[before.len() as int].0 == lists@[n as int].0);
            assert forall|i: int|
                0 <= i < n && source_map_index(text::views((#[trigger] lists@[i]).1@), 0)
                    < lists@[i].1@.len() implies exists|k: int|
                0 <= k < found@.len() && (#[trigger] found@[k]).0 == lists@[i].0 by {
                let k = choose|k: int|
                    0 <= k < before.len() && (#[trigger] before[k]).0 == lists@[i].0;
                assert(found@[k].0 == lists@[i].0);
            }
            assert(is_found(lists@[n as int], found@.last()));
        }
        assert forall|k: int| 0 <= k < found@.len() implies comes_from(
            lists@,
            n + 1,
            #[trigger] found@[k],
        ) by {
            if k < before.len() {
                assert(comes_from(lists@, n as int, before[k]));
                let i = choose|i: int| 0 <= i < n && is_found(#[trigger] lists@[i], before[k]);
                assert(is_found(lists@[i], found@[k]));
            }
        }
        n += 1;
    }
    found
}

/// The place of the lowest position from `from` on.
fn next_position(found: &Vec<(u32, usize)>, from: u64) -> (r: Option<usize>)
    ensures
        (match r {
            Some(k) => k < found@.len() && found@[k as int].0 >= from && forall|j: int|
                0 <= j < found@.len() && (#[trigger] found@[j]).0 >= from ==> found@[j].0
                    >= found@[k as int].0,
            None => forall|j: int| 0 <= j < found@.len() ==> (#[trigger] found@[j]).0 < from,
        }),
{
    let mut best: Option<usize> = None;
    let mut n: usize = 0;
    while n < found.len()
        invariant
            n <= found@.len(),
            (match best {
                Some(k) => k < n && found@[k as int].0 >= from && forall|j: int|
                    0 <= j < n && (#[trigger] found@[j]).0 >= from ==> found@[j].0
                        >= found@[k as int].0,
                None => forall|j: int| 0 <= j < n ==> (#[trigger] found@[j]).0 < from,
            }),
        decreases found.len() - n,
    {
        if found[n].0 as u64 >= from {
            let better: bool = match best {
                Some(k) => found[n].0 < found[k].0,
                None => true,
            };
            if better {
                best = Some(n);
            }
        }
        n += 1;
    }
    best
}

/// Removes the comments that tell where the source map of the file is.
fn remove_source_map_comments(tree: Tree) -> (r: Tree)
    ensures
        r == without_source_map(tree),
{
    let lists: Vec<(u32, Vec<String>)> = syntax_tree::trailing_comments(&tree);
    let found: Vec<(u32, usize)> = source_map_comments(&lists);
    let ghost all = syntax_tree::trailing_in(tree);
    let ghost start = tree;
    assert forall|k: int| 0 <= k < found@.len() implies names_a_map(
        all,
        (#[trigger] found@[k]).0,
    ) && found@[k].1 == source_map_index(all[found@[k].0], 0) by {
        assert(comes_from(lists@, lists@.len() as int, found@[k]));
        let i = choose|i: int| 0 <= i < lists@.len() && is_found(#[trigger] lists@[i], found@[k]);
        assert(all[lists@[i].0] == text::views(lists@[i].1@));
    }
    assert forall|pos: u32| #[trigger] names_a_map(all, pos) implies exists|k: int|
        0 <= k < found@.len() && (#[trigger] found@[k]).0 == pos by {
        assert(all.contains_key(pos));
        let i = choose|i: int| 0 <= i < lists@.len() && (#[trigger] lists@[i]).0 == pos;
        assert(all[lists@[i].0] == text::views(lists@[i].1@));
    }
    let mut tree = tree;
    let mut done: u64 = 0;
    loop
        invariant
            done <= 0x1_0000_0000,
            all == syntax_tree::trailing_in(start),
            tree == unmapped(start, all, done as nat),
            forall|pos: u32|
                done <= pos && #[trigger] all.contains_key(pos) ==> syntax_tree::trailing_in(
                    tree,
                ).contains_key(pos) && syntax_tree::trailing_in(tree)[pos] == all[pos],
            forall|k: int|
                0 <= k < found@.len() ==> names_a_map(all, (#[trigger] found@[k]).0) && found@[k].1
                    == source_map_index(all[found@[k].0], 0),
            forall|pos: u32| #[trigger]
                names_a_map(all, pos) ==> exists|k: int|
                    0 <= k < found@.len() && (#[trigger] found@[k]).0 == pos,
        ensures
            tree == unmapped(start, all, done as nat),
            done <= 0x1_0000_0000,
            forall|pos: u32| done <= pos ==> !#[trigger] names_a_map(all, pos),
        decreases 0x1_0000_0000 - done,
    {
        let k: usize = match next_position(&found, done) {
            Some(k) => k,
            None => {
                break ;
            },
        };
        let (pos, index): (u32, usize) = found[k];
        proof {
            lemma_unmapped_gap(start, all, done as nat, pos as nat);
            lemma_source_map_index(all[pos], 0);
        }
        tree = syntax_tree::remove_comment(tree, pos, index);
        done = pos as u64 + 1;
    }
    proof {
        lemma_unmapped_gap(start, all, done as nat, 0x1_0000_0000);
    }
    tree
}

/// The tree of a file after all that is done before its modules are collected: scopes are
/// told apart, the environment is written in, dead code is dropped, and modules are asked
/// for by `require`. Helper functions go into the code.
pub open spec fn linked(parsed: Parsed) -> Tree {
    let scoped = syntax_tree::resolved(parsed, false, false);
    let placed = syntax_tree::with_env(
        scoped,
        true,
        browser_env(),
        syntax_tree::declared_in(scoped),
    );
    let live = syntax_tree::without_dead_branches(syntax_tree::simplified(placed));
    syntax_tree::with_helpers(syntax_tree::as_common_js(live))
}

/// The tree of a file as it is printed.
pub open spec fn finished(parsed: Parsed) -> Tree {
    without_source_map(syntax_tree::fixed(syntax_tree::renamed(linked(parsed))))
}

/// The code that is read: that of scripts and modules, with decorators and with `export`
/// of a default `from` a module, and without JSX.
pub open spec fn parse_options() -> ParseOptions {
    ParseOptions { jsx: false, export_default_from: true, decorators: true }
}

/// The text that bytes are the UTF-8 of; nothing, if they are none.
pub open spec fn text_or_nothing(bytes: Seq<u8>) -> Seq<char> {
    if vstd::utf8::valid_utf8(bytes) {
        vstd::utf8::decode_utf8(bytes)
    } else {
        Seq::empty()
    }
}

/// The order of all that is done to a file: scopes are told apart; the environment is
/// written in, past what the file declares; what can be computed is computed, and branches
/// that are never taken go; modules are asked for by `require`, and helper functions are put
/// in. What is printed has then been renamed and bracketed, and no comment in it names a
/// source map.
pub proof fn law_order_of_the_passes(parsed: Parsed)
    ensures
        linked(parsed) == syntax_tree::with_helpers(
            syntax_tree::as_common_js(
                syntax_tree::without_dead_branches(
                    syntax_tree::simplified(
                        syntax_tree::with_env(
                            syntax_tree::resolved(parsed, false, false),
                            true,
                            map!["NODE_ENV"@ => "development"@],
                            syntax_tree::declared_in(syntax_tree::resolved(parsed, false, false)),
                        ),
                    ),
                ),
            ),
        ),
        finished(parsed) == without_source_map(
            syntax_tree::fixed(syntax_tree::renamed(linked(parsed))),
        ),
        !parse_options().jsx && parse_options().export_default_from && parse_options().decorators,
{
}

/// What is printed is read as UTF-8; bytes that are not UTF-8 count as nothing.
pub proof fn law_printed_text_is_utf8(text: Seq<char>, bytes: Seq<u8>)
    ensures
        text_or_nothing(vstd::utf8::encode_utf8(text)) == text,
        !vstd::utf8::valid_utf8(bytes) ==> text_or_nothing(bytes) == Seq::<char>::empty(),
{
    vstd::utf8::encode_utf8_valid_utf8(text);
    vstd::utf8::encode_utf8_decode_utf8(text);
}

/// What becomes of what was read: its modules are collected once all imports are `require` calls,
/// and the rest is printed.
pub fn transform_parsed(parsed: Parsed) -> (r: Result<TransformedFile, ServerError>)
    ensures
        (match syntax_tree::printed(finished(parsed), true) {
            Ok(bytes) => r is Ok && r->Ok_0.content@ == text_or_nothing(bytes)
                && r->Ok_0.dependencies.items() == collected(
                syntax_tree::edges_in(linked(parsed)),
                syntax_tree::declared_in(linked(parsed)),
            ),
            Err(report) => r matches Err(ServerError::IoError(m)) && m@ == report,
        }),
        r is Ok ==> forall|i: int|
            0 <= i < r->Ok_0.dependencies.items().len() ==> npm_specifier::module_specifier(
                #[trigger] r->Ok_0.dependencies.items()[i],
            ) is Some,
{
    let tree: Tree = syntax_tree::resolve(parsed, false, false);
    let decls: Vec<Ident> = syntax_tree::declared(&tree);
    let replacer = EnvReplacer { is_browser: true, env: build_env(), decls };
    let tree: Tree = syntax_tree::write_env(tree, replacer);
    let tree: Tree = syntax_tree::remove_dead_branches(syntax_tree::simplify(tree));
    let tree: Tree = syntax_tree::add_helpers(syntax_tree::to_common_js(tree));

    let decls: Vec<Ident> = syntax_tree::declared(&tree);
    let edges: Vec<Edge> = syntax_tree::edges(&tree);
    let dependencies: StrSet = collect_edges(&edges, decls);
    proof {
        let found = edge_views(edges@);
        let declared = ident_set(decls@);
        assert forall|i: int| 0 <= i < dependencies.items().len() implies
            npm_specifier::module_specifier(#[trigger] dependencies.items()[i]) is Some by {
            assert(collected(found, declared).contains(dependencies.items()[i]));
            law_collected_specifiers_are_edges(found, declared, dependencies.items()[i]);
        }
    }

    let tree: Tree = syntax_tree::fix(syntax_tree::rename(tree));
    let tree: Tree = remove_source_map_comments(tree);
    match syntax_tree::print(tree, true) {
        Ok(bytes) => {
            let content: String = match request::utf8_text(bytes) {
                Some(content) => content,
                None => String::new(),
            };
            Ok(TransformedFile { content, dependencies })
        },
        Err(report) => Err(ServerError::IoError(report)),
    }
}

/// The transformation of a file's code: only JavaScript is transformed, and only what can
/// be parsed. What a file asks for is relative or belongs to a package.
pub fn transform_file(filename: &str, code: &str) -> (r: Result<TransformedFile, ServerError>)
    requires
        vstd::utf8::encode_utf8(code@).len() <= syntax_tree::MAX_CODE_SIZE,
    ensures
        !seq!['j', 's'].is_suffix_of(filename@) ==> (r matches Err(
            ServerError::SWCParseError { message },
        ) && message@ == "File "@ + filename@ + " is not JavaScript"@),
        seq!['j', 's'].is_suffix_of(filename@) ==> (match syntax_tree::parsed(
            code@,
            parse_options(),
        ) {
            Err(report) => r matches Err(ServerError::SWCParseError { message }) && message@
                == report,
            Ok(parsed) => match syntax_tree::printed(finished(parsed), true) {
                Ok(bytes) => r is Ok && r->Ok_0.content@ == text_or_nothing(bytes)
                    && r->Ok_0.dependencies.items() == collected(
                    syntax_tree::edges_in(linked(parsed)),
                    syntax_tree::declared_in(linked(parsed)),
                ),
                Err(report) => r matches Err(ServerError::IoError(m)) && m@ == report,
            },
        }),
        r is Ok ==> forall|i: int|
            0 <= i < r->Ok_0.dependencies.items().len() ==> npm_specifier::module_specifier(
                #[trigger] r->Ok_0.dependencies.items()[i],
            ) is Some,
{
    if let Err(err) = check_javascript(filename) {
        return Err(err);
    }
    let options = ParseOptions { jsx: false, export_default_from: true, decorators: true };
    match syntax_tree::parse(code, options) {
        Ok(parsed) => transform_parsed(parsed),
        Err(message) => Err(ServerError::SWCParseError { message }),
    }
}

} // verus!
