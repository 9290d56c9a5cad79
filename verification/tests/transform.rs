use sandpack_cdn::app_error::ServerError;
use sandpack_cdn::str_map::StrSet;
use sandpack_cdn::transform::{
    build_env, check_javascript, collect_edges, match_member_expr, match_str, source_map_comment,
    transform_file, Call, DependencyCollector, Edge, EnvReplacer, Expression, Ident, MemberExpr,
    MemberProp, Quasi, Replacement, Span, TransformedFile,
};

const SPAN: Span = Span { lo: 3, hi: 9 };

fn ident(sym: &str) -> Ident {
    Ident { sym: sym.to_string(), ctxt: 0 }
}

/// `a.b.c` of `["a", "b", "c"]`.
fn chain(names: &[&str]) -> MemberExpr {
    let (last, front) = names.split_last().unwrap();
    let obj = if front.len() == 1 {
        Expression::Ident(ident(front[0]))
    } else {
        Expression::Member(Box::new(chain(front)))
    };
    MemberExpr { obj, prop: MemberProp::Ident(last.to_string()) }
}

fn replacer(is_browser: bool, decls: Vec<Ident>) -> EnvReplacer {
    EnvReplacer { is_browser, env: build_env(), decls }
}

fn call(name: &str, arg: Option<Expression>) -> Call {
    Call { callee: Some(ident(name)), first_arg: arg }
}

fn string(value: &str) -> Option<Expression> {
    Some(Expression::Str { value: value.to_string(), span: SPAN })
}

#[test]
fn chains_are_matched() {
    let none = Vec::new();
    assert!(match_member_expr(&chain(&["process", "env"]), vec!["process", "env"], &none));
    assert!(match_member_expr(&chain(&["a", "b", "c"]), vec!["a", "b", "c"], &none));
    for idents in [
        vec!["a", "b"],
        vec!["b", "c"],
        vec!["x", "b", "c"],
        vec!["a", "x", "c"],
        vec!["a", "b", "x"],
        vec!["z", "a", "b", "c"],
        vec!["c"],
        vec![],
    ] {
        assert!(!match_member_expr(&chain(&["a", "b", "c"]), idents, &none));
    }
    let computed = MemberExpr { obj: Expression::Ident(ident("a")), prop: MemberProp::Other };
    assert!(!match_member_expr(&computed, vec!["a", "b"], &none));
    let of_call = MemberExpr { obj: Expression::Other, prop: MemberProp::Ident("b".to_string()) };
    assert!(!match_member_expr(&of_call, vec!["a", "b"], &none));
}

#[test]
fn declared_objects_are_not_matched() {
    let declared = vec![ident("process")];
    assert!(!match_member_expr(&chain(&["process", "env"]), vec!["process", "env"], &declared));
    let elsewhere = vec![Ident { sym: "process".to_string(), ctxt: 7 }];
    assert!(match_member_expr(&chain(&["process", "env"]), vec!["process", "env"], &elsewhere));
}

#[test]
fn strings_are_plain() {
    assert_eq!(match_str(&string("x").unwrap()), Some(("x".to_string(), SPAN)));
    let quasi = |cooked: Option<&str>| Quasi {
        cooked: cooked.map(str::to_string),
        raw: "raw".to_string(),
    };
    let tpl = |quasis: Vec<Quasi>, exprs: usize| Expression::Tpl { quasis, exprs, span: SPAN };
    assert_eq!(
        match_str(&tpl(vec![quasi(Some("cooked"))], 0)),
        Some(("cooked".to_string(), SPAN))
    );
    assert_eq!(match_str(&tpl(vec![quasi(None)], 0)), Some(("raw".to_string(), SPAN)));
    assert_eq!(match_str(&tpl(vec![quasi(None), quasi(None)], 1)), None);
    assert_eq!(match_str(&tpl(vec![quasi(None)], 1)), None);
    assert_eq!(match_str(&Expression::Ident(ident("x"))), None);
    assert_eq!(match_str(&Expression::Other), None);
}

#[test]
fn environment_is_written_into_the_code() {
    let r = replacer(true, Vec::new());
    assert!(matches!(r.replace_member(&chain(&["process", "browser"])), Some(Replacement::True)));
    assert!(matches!(
        r.replace_member(&chain(&["process", "env", "NODE_ENV"])),
        Some(Replacement::Text(t)) if t == "development"
    ));
    assert!(matches!(
        r.replace_member(&chain(&["process", "env", "OTHER"])),
        Some(Replacement::Undefined)
    ));
    for method in [
        "hasOwnProperty",
        "isPrototypeOf",
        "propertyIsEnumerable",
        "toLocaleString",
        "toSource",
        "toString",
        "valueOf",
    ] {
        assert!(r.replace_member(&chain(&["process", "env", method])).is_none());
    }
    assert!(r.replace_member(&chain(&["process", "env"])).is_none());
    assert!(r.replace_member(&chain(&["process", "argv", "NODE_ENV"])).is_none());
    assert!(r.replace("OTHER", false).is_none());
}

#[test]
fn browser_is_only_known_in_a_browser() {
    let r = replacer(false, Vec::new());
    assert!(r.replace_member(&chain(&["process", "browser"])).is_none());
}

#[test]
fn shadowed_process_is_kept() {
    let r = replacer(true, vec![ident("process")]);
    assert!(r.replace_member(&chain(&["process", "browser"])).is_none());
    assert!(r.replace_member(&chain(&["process", "env", "NODE_ENV"])).is_none());
}

#[test]
fn required_modules_are_collected() {
    let mut c = DependencyCollector { items: StrSet::new(), decls: Vec::new() };
    c.consider_call(&call("require", string("./a.js")));
    c.consider_call(&call("require", string("react")));
    c.consider_call(&call("require", string("react")));
    c.consider_call(&call("require", string("node:fs")));
    c.consider_call(&call("require", Some(Expression::Ident(ident("x")))));
    c.consider_call(&call("require", None));
    c.consider_call(&call("load", string("lodash")));
    c.consider_call(&Call { callee: None, first_arg: string("lodash") });
    c.consider("https://esm.sh/react");
    c.consider("@swc/helpers/_");
    assert_eq!(
        c.items.into_items(),
        vec!["./a.js".to_string(), "react".to_string(), "@swc/helpers/_".to_string()]
    );
}

#[test]
fn shadowed_require_is_ignored() {
    let mut c = DependencyCollector { items: StrSet::new(), decls: vec![ident("require")] };
    c.consider_call(&call("require", string("./a.js")));
    assert_eq!(c.items.len(), 0);
}

#[test]
fn only_javascript_is_transformed() {
    for name in ["index.js", "a.cjs", "b.mjs", "js", "tjs"] {
        assert!(check_javascript(name).is_ok());
    }
    for name in ["index.ts", "a.json", "b.jsx", "c.JS", "a\u{e9}", "", "s", "x\u{20ac}"] {
        match check_javascript(name) {
            Err(ServerError::SWCParseError { message }) => {
                assert_eq!(message, format!("File {name} is not JavaScript"));
            }
            other => panic!("{:?}", other),
        }
    }
}

#[test]
fn source_map_comments_are_found() {
    let comments = |items: &[&str]| -> Vec<String> { items.iter().map(|s| s.to_string()).collect() };
    assert_eq!(source_map_comment(&comments(&[])), None);
    assert_eq!(source_map_comment(&comments(&[" # sourceMappingURL=a", "x"])), None);
    assert_eq!(
        source_map_comment(&comments(&["x", "# sourceMappingURL=a", "# sourceMappingURL=b"])),
        Some(1)
    );
}

#[test]
fn edges_are_collected_in_order() {
    let edges = vec![
        Edge::Source("./b.js".to_string()),
        Edge::Call(call("require", string("./a.js"))),
        Edge::Source("node:fs".to_string()),
        Edge::Call(call("require", string("./b.js"))),
        Edge::Call(call("load", string("./c.js"))),
    ];
    assert_eq!(collect_edges(&edges, Vec::new()).into_items(), vec!["./b.js", "./a.js"]);
    assert_eq!(collect_edges(&edges, vec![ident("require")]).into_items(), vec!["./b.js"]);
}

#[test]
fn inlines_env_variables() {
    assert_eq!(
        transform_file("index.js", "module.exports = process.env.NODE_ENV;")
            .unwrap()
            .content,
        String::from("\"use strict\";module.exports=\"development\";")
    );
}

#[test]
fn collects_conditional_require_deps() {
    let code = "'use strict';\n\nif (process.env.NODE_ENV === 'production') {\n  module.exports = require('./cjs/react.production.min.js');\n} else {\n  module.exports = require('./cjs/react.development.js');\n}\n";
    let res = transform_file("index.js", code).unwrap();
    println!("CONTENT >>>{}<<<", res.content);
    println!("DEPS >>>{:?}<<<", res.dependencies);
    assert!(
        res.dependencies.contains("./cjs/react.development.js"),
        "expected development require to be collected, got {:?}",
        res.dependencies
    );
}

#[test]
fn remove_sourcemap_comment() {
    assert_eq!(
        transform_file(
            "index.js",
            "module.exports = \"hello world\";\n//other-comment\n//# sourceMappingURL=index.js.map"
        )
        .unwrap()
        .content,
        String::from("\"use strict\";module.exports=\"hello world\";//other-comment\n")
    );
}

#[test]
fn esm_star_import_inlines_interop_helpers() {
    let res = transform_file(
        "index.js",
        "import * as icons from './icons.js';\nexport default icons;\n",
    )
    .unwrap();
    assert!(
        !res.content.contains("import "),
        "expected no residual ESM import, got {}",
        res.content
    );
    assert!(
        !res.content.contains("@swc/helpers"),
        "helpers must be inlined, not external: {}",
        res.content
    );
    let dependencies = res.dependencies.into_items();
    assert!(
        dependencies.iter().all(|d| !d.starts_with("@swc/helpers")),
        "expected no @swc/helpers dep edge, got {:?}",
        dependencies
    );
    if res.content.contains("_interop_require_wildcard") {
        assert!(
            res.content.contains("function _interop_require_wildcard"),
            "helper call without inlined definition: {}",
            res.content
        );
    }
}

fn transformed(code: &str) -> TransformedFile {
    transform_file("index.js", code).unwrap()
}

#[test]
fn dead_branches_ask_for_nothing() {
    let file = transformed(
        "if (process.env.NODE_ENV === 'production') { require('./a.js'); } \
         else { require('./b.js'); }",
    );
    assert_eq!(file.dependencies.into_items(), vec!["./b.js"]);
    assert!(!file.content.contains("./a.js"));
}

#[test]
fn what_the_file_declares_is_its_own() {
    let file = transformed(
        "function f(require, process) { require('./a.js'); return process.browser; } \
         require(`./b.js`); f(process.browser, process.env.OTHER);",
    );
    assert_eq!(file.dependencies.into_items(), vec!["./b.js"]);
    assert_eq!(
        file.content,
        "\"use strict\";function f(require1,process){require1(\"./a.js\");return process.browser;}\
         require(`./b.js`);f(true,undefined);"
    );
}

#[test]
fn imports_and_exports_are_edges() {
    let file = transformed(
        "import a from './a.js'; export * from './b.js'; export { c } from 'c'; \
         export d from './d.js'; import fs from 'node:fs'; console.log(a, fs);",
    );
    let mut dependencies = file.dependencies.into_items();
    dependencies.sort();
    assert_eq!(dependencies, vec!["./a.js", "./b.js", "./d.js", "c"]);
}

#[test]
fn inner_calls_come_first() {
    let file = transformed("require('./a.js')(require('./b.js')(require('./c.js')));");
    assert_eq!(file.dependencies.into_items(), vec!["./a.js", "./b.js", "./c.js"]);
}

#[test]
fn names_of_different_scopes_stay_apart() {
    let file = transformed("import a from './a.js'; function f(_a) { return a + _a; } f(1);");
    assert!(
        file.content.ends_with("function f(_a1){return _a.default+_a1;}f(1);"),
        "{}",
        file.content
    );
}

#[test]
fn brackets_are_put_in_where_they_are_needed() {
    assert_eq!(transformed("x = (a, b) ? (c => d)() : 1;").content, "\"use strict\";x=(a,b)?(c=>d)():1;");
}

#[test]
fn each_source_map_comment_is_removed() {
    let file = transformed(
        "f(); //# sourceMappingURL=a.map\ng();\n//x\n//# sourceMappingURL=b.map\n\
         //# sourceMappingURL=c.map\n",
    );
    assert!(!file.content.contains("a.map"), "{}", file.content);
    assert!(!file.content.contains("b.map"), "{}", file.content);
    assert!(file.content.contains("c.map"), "{}", file.content);
    assert!(file.content.contains("//x"), "{}", file.content);
}

#[test]
fn code_that_cannot_be_parsed_is_refused() {
    for code in ["let = ;", "<div></div>", "f("] {
        match transform_file("index.js", code) {
            Err(ServerError::SWCParseError { message }) => {
                assert!(message.starts_with("Error {"), "{message}");
            }
            other => panic!("{:?}", other),
        }
    }
    assert!(transform_file("index.js", "@dec class A {}").is_ok());
    assert!(matches!(
        transform_file("index.ts", "let = ;"),
        Err(ServerError::SWCParseError { message }) if message == "File index.ts is not JavaScript"
    ));
}
