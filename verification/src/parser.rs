//! Symbols of a source file: what it exports, what it imports, and where its
//! functions are, read from its syntax tree.

use vstd::prelude::*;

use crate::syntax::{
    field_child, field_child_index, field_text, field_text_of, has_kind, kind_is,
    node_events, node_text, parsed_syntax, syntax_tree, text_of, wf_node, Grammar, SyntaxNode,
};
use crate::paths::{extension_of, path_extension};
use crate::text::{
    chars_of, contains, ends_with, starts_with, str_contains, str_eq, str_starts_with, string_from_chars, to_string, trim_char,
    trim_char_bounds,
};

verus! {

/// What kind of declaration an export is.
#[derive(Debug, Clone, Copy, PartialEq, Eq, Structural)]
pub enum ExportKind {
    Function,
    Const,
    Class,
    Interface,
    Type,
    Default,
    Named,
}

/// An exported symbol.
#[derive(Debug, Clone)]
pub struct Export {
    pub name: String,
    pub kind: ExportKind,
    pub start_line: usize,
    pub end_line: usize,
    pub file_path: String,
    pub is_used: bool,
}

pub struct ExportView {
    pub name: Seq<char>,
    pub kind: ExportKind,
    pub start_line: usize,
    pub end_line: usize,
    pub file_path: Seq<char>,
    pub is_used: bool,
}

impl View for Export {
    type V = ExportView;

    open spec fn view(&self) -> ExportView {
        ExportView {
            name: self.name@,
            kind: self.kind,
            start_line: self.start_line,
            end_line: self.end_line,
            file_path: self.file_path@,
            is_used: self.is_used,
        }
    }
}

/// An import statement or `require` call.
#[derive(Debug, Clone)]
pub struct Import {
    pub symbols: Vec<String>,
    pub source: String,
    pub start_line: usize,
    pub end_line: usize,
    pub file_path: String,
    pub is_default: bool,
    pub is_namespace: bool,
}

pub struct ImportView {
    pub symbols: Seq<Seq<char>>,
    pub source: Seq<char>,
    pub start_line: usize,
    pub end_line: usize,
    pub file_path: Seq<char>,
    pub is_default: bool,
    pub is_namespace: bool,
}

/// The views of a sequence of strings.
pub open spec fn strings_view(v: Seq<String>) -> Seq<Seq<char>> {
    v.map_values(|s: String| s@)
}

impl View for Import {
    type V = ImportView;

    open spec fn view(&self) -> ImportView {
        ImportView {
            symbols: strings_view(self.symbols@),
            source: self.source@,
            start_line: self.start_line,
            end_line: self.end_line,
            file_path: self.file_path@,
            is_default: self.is_default,
            is_namespace: self.is_namespace,
        }
    }
}

/// A function definition and the bytes it spans.
#[derive(Debug, Clone)]
pub struct FunctionInfo {
    pub name: Option<String>,
    pub start_line: usize,
    pub end_line: usize,
    pub body_start_line: usize,
    pub start_byte: usize,
    pub end_byte: usize,
    pub file_path: String,
}

pub struct FunctionInfoView {
    pub name: Option<Seq<char>>,
    pub start_line: usize,
    pub end_line: usize,
    pub body_start_line: usize,
    pub start_byte: usize,
    pub end_byte: usize,
    pub file_path: Seq<char>,
}

impl View for FunctionInfo {
    type V = FunctionInfoView;

    open spec fn view(&self) -> FunctionInfoView {
        FunctionInfoView {
            name: match self.name {
                Some(n) => Some(n@),
                None => None,
            },
            start_line: self.start_line,
            end_line: self.end_line,
            body_start_line: self.body_start_line,
            start_byte: self.start_byte,
            end_byte: self.end_byte,
            file_path: self.file_path@,
        }
    }
}

/// A source file as read from disk: its path and its text.
pub struct SourceFile {
    pub path: String,
    pub source: String,
}

/// Everything extracted from one file.
#[derive(Debug, Clone)]
pub struct FileSymbols {
    pub file_path: String,
    pub exports: Vec<Export>,
    pub imports: Vec<Import>,
    pub functions: Vec<FunctionInfo>,
}

pub struct FileSymbolsView {
    pub file_path: Seq<char>,
    pub exports: Seq<ExportView>,
    pub imports: Seq<ImportView>,
    pub functions: Seq<FunctionInfoView>,
}

pub open spec fn exports_view(v: Seq<Export>) -> Seq<ExportView> {
    v.map_values(|e: Export| e@)
}

pub open spec fn imports_view(v: Seq<Import>) -> Seq<ImportView> {
    v.map_values(|i: Import| i@)
}

pub open spec fn functions_view(v: Seq<FunctionInfo>) -> Seq<FunctionInfoView> {
    v.map_values(|f: FunctionInfo| f@)
}

impl View for FileSymbols {
    type V = FileSymbolsView;

    open spec fn view(&self) -> FileSymbolsView {
        FileSymbolsView {
            file_path: self.file_path@,
            exports: exports_view(self.exports@),
            imports: imports_view(self.imports@),
            functions: functions_view(self.functions@),
        }
    }
}

} // verus!

verus! {

/// A function definition found at node `n`.
pub open spec fn function_info_of(
    n: SyntaxNode,
    name: Option<Seq<char>>,
    path: Seq<char>,
) -> FunctionInfoView {
    FunctionInfoView {
        name,
        start_line: (n.info.start_row + 1) as usize,
        end_line: (n.info.end_row + 1) as usize,
        body_start_line: (n.info.start_row + 1) as usize,
        start_byte: n.info.start_byte,
        end_byte: n.info.end_byte,
        file_path: path,
    }
}

/// An export declared at node `n`.
pub open spec fn export_of(
    name: Seq<char>,
    kind: ExportKind,
    n: SyntaxNode,
    path: Seq<char>,
) -> ExportView {
    ExportView {
        name,
        kind,
        start_line: (n.info.start_row + 1) as usize,
        end_line: (n.info.end_row + 1) as usize,
        file_path: path,
        is_used: false,
    }
}

pub open spec fn is_function_declaration(n: SyntaxNode) -> bool {
    has_kind(n, "function_declaration"@) || has_kind(n, "generator_function_declaration"@)
}

pub open spec fn is_function_expression(n: SyntaxNode) -> bool {
    has_kind(n, "function"@) || has_kind(n, "arrow_function"@)
}

/// Function declarations in `n`: the outermost ones, each with its name.
pub open spec fn declared_functions(n: SyntaxNode, source: &str, path: Seq<char>) -> Seq<
    FunctionInfoView,
>
    decreases n,
{
    if is_function_declaration(n) {
        seq![function_info_of(n, field_text(n, "name"@, source), path)]
    } else {
        declared_functions_in(n.children@, source, path)
    }
}

pub open spec fn declared_functions_in(
    cs: Seq<SyntaxNode>,
    source: &str,
    path: Seq<char>,
) -> Seq<FunctionInfoView>
    decreases cs,
{
    if cs.len() == 0 {
        Seq::empty()
    } else {
        declared_functions_in(cs.drop_last(), source, path) + declared_functions(
            cs[cs.len() - 1],
            source,
            path,
        )
    }
}

/// Function and arrow-function expressions in `n`: the outermost ones.
pub open spec fn function_expressions(n: SyntaxNode, source: &str, path: Seq<char>) -> Seq<
    FunctionInfoView,
>
    decreases n,
{
    if is_function_expression(n) {
        seq![function_info_of(n, field_text(n, "name"@, source), path)]
    } else {
        function_expressions_in(n.children@, source, path)
    }
}

pub open spec fn function_expressions_in(
    cs: Seq<SyntaxNode>,
    source: &str,
    path: Seq<char>,
) -> Seq<FunctionInfoView>
    decreases cs,
{
    if cs.len() == 0 {
        Seq::empty()
    } else {
        function_expressions_in(cs.drop_last(), source, path) + function_expressions(
            cs[cs.len() - 1],
            source,
            path,
        )
    }
}

proof fn lemma_exports_view_append(a: Seq<Export>, b: Seq<Export>)
    ensures
        exports_view(a + b) == exports_view(a) + exports_view(b),
{
    assert(exports_view(a + b) =~= exports_view(a) + exports_view(b));
}

fn make_function_info(n: &SyntaxNode, name: Option<String>, path: &str) -> (f: FunctionInfo)
    requires
        n.info.start_row < usize::MAX,
        n.info.end_row < usize::MAX,
    ensures
        f@ == function_info_of(
            *n,
            match name {
                Some(s) => Some(s@),
                None => None,
            },
            path@,
        ),
{
    FunctionInfo {
        name,
        start_line: n.info.start_row + 1,
        end_line: n.info.end_row + 1,
        body_start_line: n.info.start_row + 1,
        start_byte: n.info.start_byte,
        end_byte: n.info.end_byte,
        file_path: to_string(path),
    }
}

} // verus!

verus! {

/// Appends the outermost function declarations in `n`.
fn collect_functions(n: &SyntaxNode, source: &str, path: &str, out: &mut Vec<FunctionInfo>)
    requires
        wf_node(*n, source),
    ensures
        functions_view(final(out)@) == functions_view(old(out)@) + declared_functions(
            *n,
            source,
            path@,
        ),
    decreases n,
{
    if kind_is(n, "function_declaration") || kind_is(n, "generator_function_declaration") {
        let name = field_text_of(n, "name", source);
        let f = make_function_info(n, name, path);
        let ghost before = out@;
        out.push(f);
        assert(functions_view(out@) =~= functions_view(before).push(f@));
        return;
    }
    let ghost start = out@;
    let mut i: usize = 0;
    while i < n.children.len()
        invariant
            i <= n.children@.len(),
            wf_node(*n, source),
            !is_function_declaration(*n),
            functions_view(out@) == functions_view(start) + declared_functions_in(
                n.children@.take(i as int),
                source,
                path@,
            ),
        decreases n.children.len() - i,
    {
        assert(wf_node(n.children@[i as int], source));
        collect_functions(&n.children[i], source, path, out);
        proof {
            let t = n.children@.take(i + 1);
            assert(t.drop_last() =~= n.children@.take(i as int));
            assert(t[t.len() - 1] == n.children@[i as int]);
        }
        i += 1;
    }
    assert(n.children@.take(i as int) =~= n.children@);
}

/// Appends the outermost function and arrow-function expressions in `n`.
fn collect_function_expressions(
    n: &SyntaxNode,
    source: &str,
    path: &str,
    out: &mut Vec<FunctionInfo>,
)
    requires
        wf_node(*n, source),
    ensures
        functions_view(final(out)@) == functions_view(old(out)@) + function_expressions(
            *n,
            source,
            path@,
        ),
    decreases n,
{
    if kind_is(n, "function") || kind_is(n, "arrow_function") {
        let name = field_text_of(n, "name", source);
        let f = make_function_info(n, name, path);
        let ghost before = out@;
        out.push(f);
        assert(functions_view(out@) =~= functions_view(before).push(f@));
        return;
    }
    let ghost start = out@;
    let mut i: usize = 0;
    while i < n.children.len()
        invariant
            i <= n.children@.len(),
            wf_node(*n, source),
            !is_function_expression(*n),
            functions_view(out@) == functions_view(start) + function_expressions_in(
                n.children@.take(i as int),
                source,
                path@,
            ),
        decreases n.children.len() - i,
    {
        assert(wf_node(n.children@[i as int], source));
        collect_function_expressions(&n.children[i], source, path, out);
        proof {
            let t = n.children@.take(i + 1);
            assert(t.drop_last() =~= n.children@.take(i as int));
            assert(t[t.len() - 1] == n.children@[i as int]);
        }
        i += 1;
    }
    assert(n.children@.take(i as int) =~= n.children@);
}

} // verus!

verus! {

/// The export an assignment makes: `module.exports = ...` exports
/// `default`, `exports.name = ...` exports `name`.
pub open spec fn assignment_exports(c: SyntaxNode, source: &str, path: Seq<char>) -> Seq<
    ExportView,
> {
    match field_text(c, "left"@, source) {
        Some(left) => if left == "module.exports"@ {
            seq![export_of("default"@, ExportKind::Default, c, path)]
        } else if starts_with(left, "exports."@) {
            seq![export_of(left.skip("exports."@.len() as int), ExportKind::Named, c, path)]
        } else {
            Seq::empty()
        },
        None => Seq::empty(),
    }
}

/// The export a declarator of an exported `const`/`let`/`var` makes.
pub open spec fn declarator_export(v: SyntaxNode, source: &str, path: Seq<char>) -> Seq<
    ExportView,
> {
    if has_kind(v, "variable_declarator"@) {
        match field_text(v, "name"@, source) {
            Some(name) => seq![export_of(name, ExportKind::Const, v, path)],
            None => Seq::empty(),
        }
    } else {
        Seq::empty()
    }
}

/// The function an exported declarator holds, when its value is a function
/// or arrow function.
pub open spec fn declarator_function(v: SyntaxNode, source: &str, path: Seq<char>) -> Seq<
    FunctionInfoView,
> {
    if has_kind(v, "variable_declarator"@) {
        match field_text(v, "name"@, source) {
            Some(name) => match field_child(v, "value"@) {
                Some(value) => if is_function_expression(value) {
                    seq![function_info_of(value, Some(name), path)]
                } else {
                    Seq::empty()
                },
                None => Seq::empty(),
            },
            None => Seq::empty(),
        }
    } else {
        Seq::empty()
    }
}

/// The export an `export { ... }` specifier makes.
pub open spec fn specifier_export(s: SyntaxNode, source: &str, path: Seq<char>) -> Seq<
    ExportView,
> {
    if has_kind(s, "export_specifier"@) {
        match field_text(s, "name"@, source) {
            Some(name) => seq![export_of(name, ExportKind::Named, s, path)],
            None => Seq::empty(),
        }
    } else {
        Seq::empty()
    }
}

/// The exports that a sequence of variable declarators yields, one after the
/// other.
pub open spec fn declarators_exports(cs: Seq<SyntaxNode>, source: &str, path: Seq<char>) -> Seq<
    ExportView,
>
    decreases cs.len(),
{
    if cs.len() == 0 {
        Seq::empty()
    } else {
        declarators_exports(cs.drop_last(), source, path) + declarator_export(
            cs.last(),
            source,
            path,
        )
    }
}

pub open spec fn declarators_functions(cs: Seq<SyntaxNode>, source: &str, path: Seq<char>) -> Seq<
    FunctionInfoView,
>
    decreases cs.len(),
{
    if cs.len() == 0 {
        Seq::empty()
    } else {
        declarators_functions(cs.drop_last(), source, path) + declarator_function(
            cs.last(),
            source,
            path,
        )
    }
}

pub open spec fn specifiers_exports(cs: Seq<SyntaxNode>, source: &str, path: Seq<char>) -> Seq<
    ExportView,
>
    decreases cs.len(),
{
    if cs.len() == 0 {
        Seq::empty()
    } else {
        specifiers_exports(cs.drop_last(), source, path) + specifier_export(
            cs.last(),
            source,
            path,
        )
    }
}

/// What a named declaration under `export` exports.
pub open spec fn named_export(c: SyntaxNode, kind: ExportKind, source: &str, path: Seq<char>) -> Seq<
    ExportView,
> {
    match field_text(c, "name"@, source) {
        Some(name) => seq![export_of(name, kind, c, path)],
        None => Seq::empty(),
    }
}

/// The exports and functions that one child of an `export` statement yields.
pub open spec fn export_child(c: SyntaxNode, source: &str, path: Seq<char>) -> (
    Seq<ExportView>,
    Seq<FunctionInfoView>,
) {
    if is_function_declaration(c) {
        match field_text(c, "name"@, source) {
            Some(name) => (
                seq![export_of(name, ExportKind::Function, c, path)],
                seq![function_info_of(c, Some(name), path)],
            ),
            None => (Seq::empty(), Seq::empty()),
        }
    } else if has_kind(c, "class_declaration"@) {
        (named_export(c, ExportKind::Class, source, path), Seq::empty())
    } else if has_kind(c, "lexical_declaration"@) || has_kind(c, "variable_declaration"@) {
        (
            declarators_exports(c.children@, source, path),
            declarators_functions(c.children@, source, path),
        )
    } else if has_kind(c, "export_clause"@) {
        (specifiers_exports(c.children@, source, path), Seq::empty())
    } else if has_kind(c, "interface_declaration"@) {
        (named_export(c, ExportKind::Interface, source, path), Seq::empty())
    } else if has_kind(c, "type_alias_declaration"@) {
        (named_export(c, ExportKind::Type, source, path), Seq::empty())
    } else if has_kind(c, "assignment_expression"@) {
        (assignment_exports(c, source, path), Seq::empty())
    } else if is_anonymous_default(c) {
        (seq![export_of("default"@, ExportKind::Default, c, path)], Seq::empty())
    } else {
        (Seq::empty(), Seq::empty())
    }
}

/// An unnamed function or class, as `export default function () {}` and
/// `export default class {}` give it.
pub open spec fn is_anonymous_default(c: SyntaxNode) -> bool {
    has_kind(c, "function_expression"@) || has_kind(c, "generator_function"@) || has_kind(
        c,
        "class"@,
    )
}

/// The exports and functions of the children of an `export` statement.
pub open spec fn export_children(cs: Seq<SyntaxNode>, source: &str, path: Seq<char>) -> (
    Seq<ExportView>,
    Seq<FunctionInfoView>,
)
    decreases cs.len(),
{
    if cs.len() == 0 {
        (Seq::empty(), Seq::empty())
    } else {
        let a = export_children(cs.drop_last(), source, path);
        let b = export_child(cs.last(), source, path);
        (a.0 + b.0, a.1 + b.1)
    }
}

/// The exports that the assignments among `cs` make.
pub open spec fn assignments_exports(cs: Seq<SyntaxNode>, source: &str, path: Seq<char>) -> Seq<
    ExportView,
>
    decreases cs.len(),
{
    if cs.len() == 0 {
        Seq::empty()
    } else {
        assignments_exports(cs.drop_last(), source, path) + if has_kind(
            cs.last(),
            "assignment_expression"@,
        ) {
            assignment_exports(cs.last(), source, path)
        } else {
            Seq::empty()
        }
    }
}

/// The exports and functions that a top-level statement contributes.
pub open spec fn statement_symbols(n: SyntaxNode, source: &str, path: Seq<char>) -> (
    Seq<ExportView>,
    Seq<FunctionInfoView>,
) {
    if has_kind(n, "export_statement"@) {
        export_children(n.children@, source, path)
    } else if has_kind(n, "expression_statement"@) {
        (assignments_exports(n.children@, source, path), Seq::empty())
    } else if has_kind(n, "lexical_declaration"@) || has_kind(n, "variable_declaration"@) {
        (Seq::empty(), function_expressions(n, source, path))
    } else if is_function_declaration(n) || has_kind(n, "class_declaration"@) || has_kind(
        n,
        "interface_declaration"@,
    ) || has_kind(n, "type_alias_declaration"@) {
        (Seq::empty(), declared_functions(n, source, path))
    } else {
        (Seq::empty(), Seq::empty())
    }
}

fn make_export(name: String, kind: ExportKind, n: &SyntaxNode, path: &str) -> (e: Export)
    requires
        n.info.start_row < usize::MAX,
        n.info.end_row < usize::MAX,
    ensures
        e@ == export_of(name@, kind, *n, path@),
{
    Export {
        name,
        kind,
        start_line: n.info.start_row + 1,
        end_line: n.info.end_row + 1,
        file_path: to_string(path),
        is_used: false,
    }
}

/// The part of `s` after `prefix`, when `s` begins with it.
pub fn strip_prefix_of(s: &str, prefix: &str) -> (r: Option<String>)
    ensures
        r matches Some(t) ==> starts_with(s@, prefix@) && t@ == s@.skip(prefix@.len() as int),
        r is None ==> !starts_with(s@, prefix@),
{
    let cs = chars_of(s);
    let cp = chars_of(prefix);
    if cp.len() > cs.len() {
        return None;
    }
    if !crate::text::matches_at(&cs, 0, cp.as_slice()) {
        return None;
    }
    let rest = crate::text::slice_to_vec(&cs, cp.len(), cs.len());
    assert(cs@.subrange(cp.len() as int, cs.len() as int) =~= s@.skip(prefix@.len() as int));
    Some(string_from_chars(rest.as_slice()))
}

fn assignment_export_vec(c: &SyntaxNode, source: &str, path: &str) -> (out: Vec<Export>)
    requires
        wf_node(*c, source),
    ensures
        exports_view(out@) == assignment_exports(*c, source, path@),
{
    let mut out: Vec<Export> = Vec::new();
    match field_text_of(c, "left", source) {
        Some(left) => {
            if str_eq(left.as_str(), "module.exports") {
                out.push(make_export(to_string("default"), ExportKind::Default, c, path));
            } else {
                match strip_prefix_of(left.as_str(), "exports.") {
                    Some(prop) => {
                        out.push(make_export(prop, ExportKind::Named, c, path));
                    },
                    None => {},
                }
            }
        },
        None => {},
    }
    assert(exports_view(out@) =~= assignment_exports(*c, source, path@));
    out
}

fn named_export_vec(c: &SyntaxNode, kind: ExportKind, source: &str, path: &str) -> (out: Vec<
    Export,
>)
    requires
        wf_node(*c, source),
    ensures
        exports_view(out@) == named_export(*c, kind, source, path@),
{
    let mut out: Vec<Export> = Vec::new();
    match field_text_of(c, "name", source) {
        Some(name) => {
            out.push(make_export(name, kind, c, path));
        },
        None => {},
    }
    assert(exports_view(out@) =~= named_export(*c, kind, source, path@));
    out
}

/// Exports (and the functions they hold) of the declarators of an exported
/// `const`/`let`/`var`.
fn extract_variable_exports(
    node: &SyntaxNode,
    source: &str,
    path: &str,
    exports: &mut Vec<Export>,
    functions: &mut Vec<FunctionInfo>,
)
    requires
        wf_node(*node, source),
    ensures
        exports_view(final(exports)@) == exports_view(old(exports)@) + declarators_exports(
            node.children@,
            source,
            path@,
        ),
        functions_view(final(functions)@) == functions_view(old(functions)@)
            + declarators_functions(node.children@, source, path@),
{
    let ghost e0 = exports@;
    let ghost f0 = functions@;
    let mut i: usize = 0;
    while i < node.children.len()
        invariant
            i <= node.children@.len(),
            wf_node(*node, source),
            exports_view(exports@) == exports_view(e0) + declarators_exports(
                node.children@.take(i as int),
                source,
                path@,
            ),
            functions_view(functions@) == functions_view(f0) + declarators_functions(
                node.children@.take(i as int),
                source,
                path@,
            ),
        decreases node.children.len() - i,
    {
        let v = &node.children[i];
        assert(wf_node(node.children@[i as int], source));
        let ghost eb = exports@;
        let ghost fb = functions@;
        if kind_is(v, "variable_declarator") {
            match field_text_of(v, "name", source) {
                Some(name) => {
                    let name2 = name.clone();
                    exports.push(make_export(name, ExportKind::Const, v, path));
                    match field_child_index(v, "value") {
                        Some(k) => {
                            let value = &v.children[k];
                            assert(wf_node(v.children@[k as int], source));
                            if kind_is(value, "function") || kind_is(value, "arrow_function") {
                                functions.push(make_function_info(value, Some(name2), path));
                            }
                        },
                        None => {},
                    }
                },
                None => {},
            }
        }
        proof {
            let t = node.children@.take(i + 1);
            assert(t.drop_last() =~= node.children@.take(i as int));
            assert(t.last() == node.children@[i as int]);
            assert(exports_view(exports@) =~= exports_view(eb) + declarator_export(
                node.children@[i as int],
                source,
                path@,
            ));
            assert(functions_view(functions@) =~= functions_view(fb) + declarator_function(
                node.children@[i as int],
                source,
                path@,
            ));
        }
        i += 1;
    }
    assert(node.children@.take(i as int) =~= node.children@);
}

} // verus!

verus! {

fn collect_export_child(
    c: &SyntaxNode,
    source: &str,
    path: &str,
    exports: &mut Vec<Export>,
    functions: &mut Vec<FunctionInfo>,
)
    requires
        wf_node(*c, source),
    ensures
        exports_view(final(exports)@) == exports_view(old(exports)@) + export_child(
            *c,
            source,
            path@,
        ).0,
        functions_view(final(functions)@) == functions_view(old(functions)@) + export_child(
            *c,
            source,
            path@,
        ).1,
{
    let ghost e0 = exports@;
    let ghost f0 = functions@;
    if kind_is(c, "function_declaration") || kind_is(c, "generator_function_declaration") {
        match field_text_of(c, "name", source) {
            Some(name) => {
                let name2 = name.clone();
                exports.push(make_export(name, ExportKind::Function, c, path));
                functions.push(make_function_info(c, Some(name2), path));
            },
            None => {},
        }
        assert(exports_view(exports@) =~= exports_view(e0) + export_child(*c, source, path@).0);
        assert(functions_view(functions@) =~= functions_view(f0) + export_child(
            *c,
            source,
            path@,
        ).1);
    } else if kind_is(c, "class_declaration") {
        let mut v = named_export_vec(c, ExportKind::Class, source, path);
        proof {
            lemma_exports_view_append(exports@, v@);
        }
        exports.append(&mut v);
        assert(functions@ == f0);
    } else if kind_is(c, "lexical_declaration") || kind_is(c, "variable_declaration") {
        extract_variable_exports(c, source, path, exports, functions);
    } else if kind_is(c, "export_clause") {
        let ghost eb = exports@;
        let mut i: usize = 0;
        while i < c.children.len()
            invariant
                i <= c.children@.len(),
                wf_node(*c, source),
                exports_view(exports@) == exports_view(eb) + specifiers_exports(
                    c.children@.take(i as int),
                    source,
                    path@,
                ),
                functions@ == f0,
            decreases c.children.len() - i,
        {
            let s = &c.children[i];
            assert(wf_node(c.children@[i as int], source));
            let ghost before = exports@;
            if kind_is(s, "export_specifier") {
                match field_text_of(s, "name", source) {
                    Some(name) => {
                        exports.push(make_export(name, ExportKind::Named, s, path));
                    },
                    None => {},
                }
            }
            proof {
                let t = c.children@.take(i + 1);
                assert(t.drop_last() =~= c.children@.take(i as int));
                assert(t.last() == c.children@[i as int]);
                assert(exports_view(exports@) =~= exports_view(before) + specifier_export(
                    c.children@[i as int],
                    source,
                    path@,
                ));
            }
            i += 1;
        }
        assert(c.children@.take(i as int) =~= c.children@);
        assert(functions_view(functions@) =~= functions_view(f0) + export_child(
            *c,
            source,
            path@,
        ).1);
    } else if kind_is(c, "interface_declaration") {
        let mut v = named_export_vec(c, ExportKind::Interface, source, path);
        proof {
            lemma_exports_view_append(exports@, v@);
        }
        exports.append(&mut v);
        assert(functions_view(functions@) =~= functions_view(f0) + export_child(
            *c,
            source,
            path@,
        ).1);
    } else if kind_is(c, "type_alias_declaration") {
        let mut v = named_export_vec(c, ExportKind::Type, source, path);
        proof {
            lemma_exports_view_append(exports@, v@);
        }
        exports.append(&mut v);
        assert(functions_view(functions@) =~= functions_view(f0) + export_child(
            *c,
            source,
            path@,
        ).1);
    } else if kind_is(c, "assignment_expression") {
        let mut v = assignment_export_vec(c, source, path);
        proof {
            lemma_exports_view_append(exports@, v@);
        }
        exports.append(&mut v);
        assert(functions_view(functions@) =~= functions_view(f0) + export_child(
            *c,
            source,
            path@,
        ).1);
    } else if kind_is(c, "function_expression") || kind_is(c, "generator_function") || kind_is(
        c,
        "class",
    ) {
        exports.push(make_export(to_string("default"), ExportKind::Default, c, path));
        assert(exports_view(exports@) =~= exports_view(e0) + export_child(*c, source, path@).0);
        assert(functions_view(functions@) =~= functions_view(f0) + export_child(
            *c,
            source,
            path@,
        ).1);
    } else {
        assert(exports_view(exports@) =~= exports_view(e0) + export_child(*c, source, path@).0);
        assert(functions_view(functions@) =~= functions_view(f0) + export_child(
            *c,
            source,
            path@,
        ).1);
    }
}

/// Appends the exports of a top-level statement and the functions it
/// defines.
fn collect_exports(
    node: &SyntaxNode,
    source: &str,
    path: &str,
    exports: &mut Vec<Export>,
    functions: &mut Vec<FunctionInfo>,
)
    requires
        wf_node(*node, source),
    ensures
        exports_view(final(exports)@) == exports_view(old(exports)@) + statement_symbols(
            *node,
            source,
            path@,
        ).0,
        functions_view(final(functions)@) == functions_view(old(functions)@) + statement_symbols(
            *node,
            source,
            path@,
        ).1,
{
    let ghost e0 = exports@;
    let ghost f0 = functions@;
    if kind_is(node, "export_statement") {
        let mut i: usize = 0;
        while i < node.children.len()
            invariant
                i <= node.children@.len(),
                wf_node(*node, source),
                exports_view(exports@) == exports_view(e0) + export_children(
                    node.children@.take(i as int),
                    source,
                    path@,
                ).0,
                functions_view(functions@) == functions_view(f0) + export_children(
                    node.children@.take(i as int),
                    source,
                    path@,
                ).1,
            decreases node.children.len() - i,
        {
            assert(wf_node(node.children@[i as int], source));
            collect_export_child(&node.children[i], source, path, exports, functions);
            proof {
                let t = node.children@.take(i + 1);
                assert(t.drop_last() =~= node.children@.take(i as int));
                assert(t.last() == node.children@[i as int]);
            }
            i += 1;
        }
        assert(node.children@.take(i as int) =~= node.children@);
    } else if kind_is(node, "expression_statement") {
        let mut i: usize = 0;
        while i < node.children.len()
            invariant
                i <= node.children@.len(),
                wf_node(*node, source),
                exports_view(exports@) == exports_view(e0) + assignments_exports(
                    node.children@.take(i as int),
                    source,
                    path@,
                ),
                functions@ == f0,
            decreases node.children.len() - i,
        {
            let c = &node.children[i];
            assert(wf_node(node.children@[i as int], source));
            if kind_is(c, "assignment_expression") {
                let mut v = assignment_export_vec(c, source, path);
                proof {
                    lemma_exports_view_append(exports@, v@);
                }
                exports.append(&mut v);
            }
            proof {
                let t = node.children@.take(i + 1);
                assert(t.drop_last() =~= node.children@.take(i as int));
                assert(t.last() == node.children@[i as int]);
                assert(exports_view(exports@) =~= exports_view(e0) + assignments_exports(
                    t,
                    source,
                    path@,
                ));
            }
            i += 1;
        }
        assert(node.children@.take(i as int) =~= node.children@);
        assert(functions_view(functions@) =~= functions_view(f0) + statement_symbols(
            *node,
            source,
            path@,
        ).1);
    } else if kind_is(node, "lexical_declaration") || kind_is(node, "variable_declaration") {
        collect_function_expressions(node, source, path, functions);
        assert(exports_view(exports@) =~= exports_view(e0) + statement_symbols(
            *node,
            source,
            path@,
        ).0);
    } else if kind_is(node, "function_declaration") || kind_is(
        node,
        "generator_function_declaration",
    ) || kind_is(node, "class_declaration") || kind_is(node, "interface_declaration") || kind_is(
        node,
        "type_alias_declaration",
    ) {
        collect_functions(node, source, path, functions);
        assert(exports_view(exports@) =~= exports_view(e0) + statement_symbols(
            *node,
            source,
            path@,
        ).0);
    } else {
        assert(exports_view(exports@) =~= exports_view(e0) + statement_symbols(
            *node,
            source,
            path@,
        ).0);
        assert(functions_view(functions@) =~= functions_view(f0) + statement_symbols(
            *node,
            source,
            path@,
        ).1);
    }
}

} // verus!

verus! {

/// A string literal's text without its quotes (`'` trimmed from both ends,
/// then `"`).
pub open spec fn unquote(s: Seq<char>) -> Seq<char> {
    trim_char(trim_char(s, '\''), '"')
}

pub fn unquoted(s: &str) -> (r: String)
    ensures
        r@ == unquote(s@),
{
    let cs = chars_of(s);
    let (a1, b1) = trim_char_bounds(&cs, 0, cs.len(), '\'');
    let (a2, b2) = trim_char_bounds(&cs, a1, b1, '"');
    assert(cs@.subrange(0, cs@.len() as int) =~= s@);
    let v = crate::text::slice_to_vec(&cs, a2, b2);
    string_from_chars(v.as_slice())
}

pub open spec fn is_string_node(n: SyntaxNode) -> bool {
    has_kind(n, "string"@) || has_kind(n, "string_fragment"@)
}

/// The first index, from `i` on, of a string node.
pub open spec fn first_string(cs: Seq<SyntaxNode>, i: int) -> Option<int>
    decreases cs.len() - i,
{
    if i < 0 || i >= cs.len() {
        None
    } else if is_string_node(cs[i]) {
        Some(i)
    } else {
        first_string(cs, i + 1)
    }
}

/// The module a `require("...")` call names, if `n` is such a call.
pub open spec fn require_source(n: SyntaxNode, source: &str) -> Option<Seq<char>> {
    if !has_kind(n, "call_expression"@) {
        None
    } else {
        match field_child(n, "function"@) {
            None => None,
            Some(f) => if node_text(f, source) != "require"@ {
                None
            } else {
                match field_child(n, "arguments"@) {
                    None => None,
                    Some(args) => match first_string(args.children@, 0) {
                        Some(k) => Some(unquote(node_text(args.children@[k], source))),
                        None => None,
                    },
                }
            },
        }
    }
}

/// What an import statement has gathered so far.
pub struct ClauseState {
    pub symbols: Seq<Seq<char>>,
    pub module: Seq<char>,
    pub is_default: bool,
    pub is_namespace: bool,
}

/// The names that `import { a, b as c }` specifiers bring in.
pub open spec fn specifier_names(cs: Seq<SyntaxNode>, source: &str) -> Seq<Seq<char>>
    decreases cs.len(),
{
    if cs.len() == 0 {
        Seq::empty()
    } else {
        specifier_names(cs.drop_last(), source) + specifier_name(cs.last(), source)
    }
}

/// The name one `import { ... }` specifier brings in.
pub open spec fn specifier_name(s: SyntaxNode, source: &str) -> Seq<Seq<char>> {
    if has_kind(s, "import_specifier"@) {
        match field_text(s, "name"@, source) {
            Some(name) => seq![name],
            None => Seq::empty(),
        }
    } else {
        Seq::empty()
    }
}

/// One child of an import clause read into the state.
pub open spec fn clause_step(st: ClauseState, c: SyntaxNode, source: &str) -> ClauseState {
    if has_kind(c, "identifier"@) {
        ClauseState { symbols: st.symbols.push(node_text(c, source)), is_default: true, ..st }
    } else if has_kind(c, "named_imports"@) {
        ClauseState { symbols: st.symbols + specifier_names(c.children@, source), ..st }
    } else if has_kind(c, "namespace_import"@) {
        match field_text(c, "name"@, source) {
            Some(name) => ClauseState {
                symbols: st.symbols.push(name),
                is_namespace: true,
                ..st
            },
            None => st,
        }
    } else {
        st
    }
}

pub open spec fn clause_fold(cs: Seq<SyntaxNode>, st: ClauseState, source: &str) -> ClauseState
    decreases cs.len(),
{
    if cs.len() == 0 {
        st
    } else {
        clause_step(clause_fold(cs.drop_last(), st, source), cs.last(), source)
    }
}

/// One child of an import statement read into the state.
pub open spec fn import_step(st: ClauseState, c: SyntaxNode, source: &str) -> ClauseState {
    if has_kind(c, "import_clause"@) {
        clause_fold(c.children@, st, source)
    } else if is_string_node(c) {
        ClauseState { module: unquote(node_text(c, source)), ..st }
    } else {
        st
    }
}

pub open spec fn import_fold(cs: Seq<SyntaxNode>, source: &str) -> ClauseState
    decreases cs.len(),
{
    if cs.len() == 0 {
        ClauseState { symbols: Seq::empty(), module: Seq::empty(), is_default: false, is_namespace: false }
    } else {
        import_step(import_fold(cs.drop_last(), source), cs.last(), source)
    }
}

/// The first index, from `i` on, of a `require` call.
pub open spec fn first_require(cs: Seq<SyntaxNode>, i: int, source: &str) -> Option<int>
    decreases cs.len() - i,
{
    if i < 0 || i >= cs.len() {
        None
    } else if require_source(cs[i], source) is Some {
        Some(i)
    } else {
        first_require(cs, i + 1, source)
    }
}

pub open spec fn import_of(
    symbols: Seq<Seq<char>>,
    module: Seq<char>,
    n: SyntaxNode,
    path: Seq<char>,
    is_default: bool,
    is_namespace: bool,
) -> ImportView {
    ImportView {
        symbols,
        source: module,
        start_line: (n.info.start_row + 1) as usize,
        end_line: (n.info.end_row + 1) as usize,
        file_path: path,
        is_default,
        is_namespace,
    }
}

/// The imports under `n`: ES `import` statements (with at least one symbol
/// and a module), `const x = require("m")` declarators and bare
/// `require("m")` statements; the search does not go inside what it found.
pub open spec fn imports_in(n: SyntaxNode, source: &str, path: Seq<char>) -> Seq<ImportView>
    decreases n,
{
    if has_kind(n, "import_statement"@) {
        let st = import_fold(n.children@, source);
        if st.symbols.len() > 0 && st.module.len() > 0 {
            seq![import_of(st.symbols, st.module, n, path, st.is_default, st.is_namespace)]
        } else {
            Seq::empty()
        }
    } else if has_kind(n, "variable_declarator"@) && (field_child(n, "value"@) matches Some(
        v,
    ) && require_source(v, source) is Some) {
        let module = require_source(field_child(n, "value"@)->0, source)->0;
        let symbol = match field_text(n, "name"@, source) {
            Some(name) => name,
            None => "default"@,
        };
        seq![import_of(seq![symbol], module, n, path, true, false)]
    } else if has_kind(n, "expression_statement"@) && first_require(n.children@, 0, source) is Some {
        let k = first_require(n.children@, 0, source)->0;
        let module = require_source(n.children@[k], source)->0;
        seq![import_of(seq!["default"@], module, n, path, true, false)]
    } else {
        imports_in_all(n.children@, source, path)
    }
}

pub open spec fn imports_in_all(cs: Seq<SyntaxNode>, source: &str, path: Seq<char>) -> Seq<
    ImportView,
>
    decreases cs,
{
    if cs.len() == 0 {
        Seq::empty()
    } else {
        imports_in_all(cs.drop_last(), source, path) + imports_in(cs[cs.len() - 1], source, path)
    }
}

} // verus!

verus! {

/// The module a `require("...")` call names, if `n` is such a call.
fn require_call(n: &SyntaxNode, source: &str) -> (r: Option<String>)
    requires
        wf_node(*n, source),
    ensures
        r matches Some(m) ==> require_source(*n, source) == Some(m@),
        r is None ==> require_source(*n, source) is None,
{
    if !kind_is(n, "call_expression") {
        return None;
    }
    let fi = match field_child_index(n, "function") {
        Some(k) => k,
        None => {
            return None;
        },
    };
    assert(wf_node(n.children@[fi as int], source));
    if !str_eq(text_of(&n.children[fi], source), "require") {
        return None;
    }
    let ai = match field_child_index(n, "arguments") {
        Some(k) => k,
        None => {
            return None;
        },
    };
    let args = &n.children[ai];
    assert(wf_node(n.children@[ai as int], source));
    let mut i: usize = 0;
    while i < args.children.len()
        invariant
            i <= args.children@.len(),
            wf_node(*args, source),
            require_source(*n, source) == match first_string(args.children@, 0) {
                Some(k) => Some(unquote(node_text(args.children@[k], source))),
                None => None::<Seq<char>>,
            },
            first_string(args.children@, 0) == first_string(args.children@, i as int),
        decreases args.children.len() - i,
    {
        let a = &args.children[i];
        if kind_is(a, "string") || kind_is(a, "string_fragment") {
            assert(wf_node(args.children@[i as int], source));
            return Some(unquoted(text_of(a, source)));
        }
        i += 1;
    }
    None
}

/// Reads the children of an import statement: its symbols, module, and
/// whether it imports a default or a namespace.
fn read_import(n: &SyntaxNode, source: &str) -> (r: (Vec<String>, String, bool, bool))
    requires
        wf_node(*n, source),
    ensures
        ({
            let st = import_fold(n.children@, source);
            strings_view(r.0@) == st.symbols && r.1@ == st.module && r.2 == st.is_default && r.3
                == st.is_namespace
        }),
{
    let mut symbols: Vec<String> = Vec::new();
    let mut module = String::new();
    let mut is_default = false;
    let mut is_namespace = false;
    let mut i: usize = 0;
    while i < n.children.len()
        invariant
            i <= n.children@.len(),
            wf_node(*n, source),
            ({
                let st = import_fold(n.children@.take(i as int), source);
                strings_view(symbols@) == st.symbols && module@ == st.module && is_default
                    == st.is_default && is_namespace == st.is_namespace
            }),
        decreases n.children.len() - i,
    {
        let c = &n.children[i];
        assert(wf_node(n.children@[i as int], source));
        let ghost st0 = ClauseState {
            symbols: strings_view(symbols@),
            module: module@,
            is_default,
            is_namespace,
        };
        if kind_is(c, "import_clause") {
            let mut j: usize = 0;
            while j < c.children.len()
                invariant
                    j <= c.children@.len(),
                    wf_node(*c, source),
                    ({
                        let st = clause_fold(c.children@.take(j as int), st0, source);
                        strings_view(symbols@) == st.symbols && module@ == st.module && is_default
                            == st.is_default && is_namespace == st.is_namespace
                    }),
                decreases c.children.len() - j,
            {
                let d = &c.children[j];
                assert(wf_node(c.children@[j as int], source));
                let ghost sb = symbols@;
                if kind_is(d, "identifier") {
                    symbols.push(to_string(text_of(d, source)));
                    is_default = true;
                    assert(strings_view(symbols@) =~= strings_view(sb).push(
                        crate::syntax::node_text(*d, source),
                    ));
                } else if kind_is(d, "named_imports") {
                    let mut k: usize = 0;
                    while k < d.children.len()
                        invariant
                            k <= d.children@.len(),
                            wf_node(*d, source),
                            strings_view(symbols@) == strings_view(sb) + specifier_names(
                                d.children@.take(k as int),
                                source,
                            ),
                        decreases d.children.len() - k,
                    {
                        let s = &d.children[k];
                        assert(wf_node(d.children@[k as int], source));
                        let ghost sk = symbols@;
                        if kind_is(s, "import_specifier") {
                            match field_text_of(s, "name", source) {
                                Some(name) => {
                                    symbols.push(name);
                                },
                                None => {},
                            }
                        }
                        proof {
                            let t = d.children@.take(k + 1);
                            assert(t.drop_last() =~= d.children@.take(k as int));
                            assert(t.last() == d.children@[k as int]);
                            assert(strings_view(symbols@) =~= strings_view(sk) + specifier_name(
                                d.children@[k as int],
                                source,
                            ));
                            assert(strings_view(symbols@) =~= strings_view(sb) + specifier_names(
                                t,
                                source,
                            ));
                        }
                        k += 1;
                    }
                    assert(d.children@.take(k as int) =~= d.children@);
                } else if kind_is(d, "namespace_import") {
                    match field_text_of(d, "name", source) {
                        Some(name) => {
                            symbols.push(name);
                            is_namespace = true;
                            assert(strings_view(symbols@) =~= strings_view(sb).push(
                                field_text(*d, "name"@, source)->0,
                            ));
                        },
                        None => {},
                    }
                }
                proof {
                    let t = c.children@.take(j + 1);
                    assert(t.drop_last() =~= c.children@.take(j as int));
                    assert(t.last() == c.children@[j as int]);
                }
                j += 1;
            }
            assert(c.children@.take(j as int) =~= c.children@);
        } else if kind_is(c, "string") || kind_is(c, "string_fragment") {
            module = unquoted(text_of(c, source));
        }
        proof {
            let t = n.children@.take(i + 1);
            assert(t.drop_last() =~= n.children@.take(i as int));
            assert(t.last() == n.children@[i as int]);
        }
        i += 1;
    }
    assert(n.children@.take(i as int) =~= n.children@);
    (symbols, module, is_default, is_namespace)
}

fn make_import(
    symbols: Vec<String>,
    module: String,
    n: &SyntaxNode,
    path: &str,
    is_default: bool,
    is_namespace: bool,
) -> (r: Import)
    requires
        n.info.start_row < usize::MAX,
        n.info.end_row < usize::MAX,
    ensures
        r@ == import_of(strings_view(symbols@), module@, *n, path@, is_default, is_namespace),
{
    Import {
        symbols,
        source: module,
        start_line: n.info.start_row + 1,
        end_line: n.info.end_row + 1,
        file_path: to_string(path),
        is_default,
        is_namespace,
    }
}

fn one_string(s: String) -> (v: Vec<String>)
    ensures
        strings_view(v@) == seq![s@],
{
    let mut v = Vec::new();
    v.push(s);
    assert(strings_view(v@) =~= seq![s@]);
    v
}

proof fn lemma_import_kinds_distinct()
    ensures
        "import_statement"@ != "variable_declarator"@,
        "import_statement"@ != "expression_statement"@,
        "variable_declarator"@ != "expression_statement"@,
{
    reveal_strlit("import_statement");
    reveal_strlit("variable_declarator");
    reveal_strlit("expression_statement");
    assert("import_statement"@.len() != "variable_declarator"@.len());
    assert("import_statement"@.len() != "expression_statement"@.len());
    assert("variable_declarator"@.len() != "expression_statement"@.len());
}

/// Appends the imports under `node`.
fn collect_imports(node: &SyntaxNode, source: &str, path: &str, imports: &mut Vec<Import>)
    requires
        wf_node(*node, source),
    ensures
        imports_view(final(imports)@) == imports_view(old(imports)@) + imports_in(
            *node,
            source,
            path@,
        ),
    decreases node,
{
    let ghost i0 = imports@;
    proof {
        lemma_import_kinds_distinct();
    }
    if kind_is(node, "import_statement") {
        let (symbols, module, is_default, is_namespace) = read_import(node, source);
        if symbols.len() > 0 && !module.as_str().is_empty() {
            imports.push(make_import(symbols, module, node, path, is_default, is_namespace));
        }
        assert(imports_view(imports@) =~= imports_view(i0) + imports_in(*node, source, path@));
        return;
    }
    if kind_is(node, "variable_declarator") {
        match field_child_index(node, "value") {
            Some(k) => {
                assert(wf_node(node.children@[k as int], source));
                match require_call(&node.children[k], source) {
                    Some(module) => {
                        let symbol = match field_text_of(node, "name", source) {
                            Some(name) => name,
                            None => to_string("default"),
                        };
                        imports.push(make_import(one_string(symbol), module, node, path, true, false));
                        assert(imports_view(imports@) =~= imports_view(i0) + imports_in(
                            *node,
                            source,
                            path@,
                        ));
                        return;
                    },
                    None => {},
                }
            },
            None => {},
        }
    }
    if kind_is(node, "expression_statement") {
        let mut i: usize = 0;
        while i < node.children.len()
            invariant
                i <= node.children@.len(),
                wf_node(*node, source),
                imports@ == i0,
                i0 == old(imports)@,
                has_kind(*node, "expression_statement"@),
                !has_kind(*node, "import_statement"@),
                !has_kind(*node, "variable_declarator"@),
                first_require(node.children@, 0, source) == first_require(
                    node.children@,
                    i as int,
                    source,
                ),
            decreases node.children.len() - i,
        {
            assert(wf_node(node.children@[i as int], source));
            match require_call(&node.children[i], source) {
                Some(module) => {
                    imports.push(
                        make_import(one_string(to_string("default")), module, node, path, true, false),
                    );
                    assert(imports_view(imports@) =~= imports_view(i0) + imports_in(
                        *node,
                        source,
                        path@,
                    ));
                    return;
                },
                None => {},
            }
            i += 1;
        }
    }
    let mut i: usize = 0;
    while i < node.children.len()
        invariant
            i <= node.children@.len(),
            wf_node(*node, source),
            imports_in(*node, source, path@) == imports_in_all(node.children@, source, path@),
            imports_view(imports@) == imports_view(i0) + imports_in_all(
                node.children@.take(i as int),
                source,
                path@,
            ),
        decreases node.children.len() - i,
    {
        assert(wf_node(node.children@[i as int], source));
        collect_imports(&node.children[i], source, path, imports);
        proof {
            let t = node.children@.take(i + 1);
            assert(t.drop_last() =~= node.children@.take(i as int));
            assert(t[t.len() - 1] == node.children@[i as int]);
        }
        i += 1;
    }
    assert(node.children@.take(i as int) =~= node.children@);
}

/// ASCII letters lowered; other characters kept.
pub open spec fn lower_char(c: char) -> char {
    if 'A' <= c <= 'Z' {
        (((c as u32) + 32) as u8) as char
    } else {
        c
    }
}

pub open spec fn ascii_lower(s: Seq<char>) -> Seq<char> {
    s.map_values(|c: char| lower_char(c))
}

/// Whether `s`, lowered, ends with the lower-case `pat`.
pub fn ends_with_lowered(s: &Vec<char>, pat: &[char]) -> (b: bool)
    ensures
        b == ends_with(ascii_lower(s@), pat@),
{
    if pat.len() > s.len() {
        return false;
    }
    let off = s.len() - pat.len();
    let mut k: usize = 0;
    while k < pat.len()
        invariant
            off + pat.len() == s.len(),
            k <= pat.len(),
            forall|j: int| 0 <= j < k ==> lower_char(s@[off + j]) == pat@[j],
        decreases pat.len() - k,
    {
        let c = s[off + k];
        let p = pat[k];
        let lc: char = if 'A' <= c && c <= 'Z' {
            (((c as u32) + 32) as u8) as char
        } else {
            c
        };
        if lc != p {
            assert(ascii_lower(s@).subrange(off as int, s.len() as int)[k as int] != pat@[k as int]);
            return false;
        }
        k += 1;
    }
    assert(ascii_lower(s@).subrange(off as int, s.len() as int) =~= pat@);
    true
}

/// The language tag of a path, by its extension: `tsx`, `ts` (also `.mts`,
/// `.cts`) or `js`, ignoring letter case.
pub open spec fn language_of(path: Seq<char>) -> Seq<char> {
    let p = ascii_lower(path);
    if ends_with(p, seq!['.', 't', 's', 'x']) {
        "tsx"@
    } else if ends_with(p, seq!['.', 't', 's']) || ends_with(p, seq!['.', 'm', 't', 's'])
        || ends_with(p, seq!['.', 'c', 't', 's']) {
        "ts"@
    } else {
        "js"@
    }
}

/// The language of a file by its extension.
pub fn language_for_file(path: &str) -> (lang: &'static str)
    ensures
        lang@ == language_of(path@),
{
    let p = chars_of(path);
    if ends_with_lowered(&p, &['.', 't', 's', 'x']) {
        "tsx"
    } else if ends_with_lowered(&p, &['.', 't', 's']) || ends_with_lowered(&p, &['.', 'm', 't', 's'])
        || ends_with_lowered(&p, &['.', 'c', 't', 's']) {
        "ts"
    } else {
        "js"
    }
}

/// The grammar a language tag is parsed with.
pub open spec fn grammar_of(lang: Seq<char>) -> Grammar {
    if lang == "js"@ {
        Grammar::JavaScript
    } else {
        Grammar::Tsx
    }
}

/// The exports and functions of a sequence of top-level statements.
pub open spec fn statements_exports(cs: Seq<SyntaxNode>, source: &str, path: Seq<char>) -> Seq<
    ExportView,
>
    decreases cs.len(),
{
    if cs.len() == 0 {
        Seq::empty()
    } else {
        statements_exports(cs.drop_last(), source, path) + statement_symbols(
            cs.last(),
            source,
            path,
        ).0
    }
}

pub open spec fn statements_functions(cs: Seq<SyntaxNode>, source: &str, path: Seq<char>) -> Seq<
    FunctionInfoView,
>
    decreases cs.len(),
{
    if cs.len() == 0 {
        Seq::empty()
    } else {
        statements_functions(cs.drop_last(), source, path) + statement_symbols(
            cs.last(),
            source,
            path,
        ).1
    }
}

/// The symbols of a file whose syntax tree is `root`: the exports and
/// functions of its top-level statements and the imports found under them.
pub open spec fn file_symbols_of(root: SyntaxNode, source: &str, path: Seq<char>) -> FileSymbolsView {
    FileSymbolsView {
        file_path: path,
        exports: statements_exports(root.children@, source, path),
        imports: imports_in_all(root.children@, source, path),
        functions: statements_functions(root.children@, source, path),
    }
}

/// Extracts the symbols of a file from its syntax tree.
pub fn extract_symbols_from_tree(file_path: &str, source: &str, root: &SyntaxNode) -> (fs:
    FileSymbols)
    requires
        wf_node(*root, source),
    ensures
        fs@ == file_symbols_of(*root, source, file_path@),
{
    let mut exports: Vec<Export> = Vec::new();
    let mut imports: Vec<Import> = Vec::new();
    let mut functions: Vec<FunctionInfo> = Vec::new();
    let mut i: usize = 0;
    while i < root.children.len()
        invariant
            i <= root.children@.len(),
            wf_node(*root, source),
            exports_view(exports@) == statements_exports(
                root.children@.take(i as int),
                source,
                file_path@,
            ),
            functions_view(functions@) == statements_functions(
                root.children@.take(i as int),
                source,
                file_path@,
            ),
            imports_view(imports@) == imports_in_all(
                root.children@.take(i as int),
                source,
                file_path@,
            ),
        decreases root.children.len() - i,
    {
        let c = &root.children[i];
        assert(wf_node(root.children@[i as int], source));
        collect_exports(c, source, file_path, &mut exports, &mut functions);
        collect_imports(c, source, file_path, &mut imports);
        proof {
            let t = root.children@.take(i + 1);
            assert(t.drop_last() =~= root.children@.take(i as int));
            assert(t.last() == root.children@[i as int]);
            assert(t[t.len() - 1] == root.children@[i as int]);
        }
        i += 1;
    }
    assert(root.children@.take(i as int) =~= root.children@);
    FileSymbols { file_path: to_string(file_path), exports, imports, functions }
}

/// Parses a file and extracts its symbols; `None` where the parse yields no
/// usable tree.
pub fn extract_file_symbols(file_path: &str, source: &str) -> (r: Option<FileSymbols>)
    ensures
        r is Some <==> (parsed_syntax(grammar_of(language_of(file_path@)), source@) matches Some(
            ev,
        ) && crate::syntax::scan_node(ev, 0, source) == Some(ev.len() as int)),
        r matches Some(fs) ==> exists|t: SyntaxNode|
            parsed_syntax(grammar_of(language_of(file_path@)), source@) == Some(node_events(t))
                && wf_node(t, source) && fs@ == file_symbols_of(t, source, file_path@),
{
    let lang = language_for_file(file_path);
    let grammar = if str_eq(lang, "js") {
        Grammar::JavaScript
    } else {
        Grammar::Tsx
    };
    match syntax_tree(grammar, source) {
        Some(t) => Some(extract_symbols_from_tree(file_path, source, &t)),
        None => None,
    }
}

/// The extensions of the files analysed, in any letter case.
pub open spec fn source_extension(ext: Seq<char>) -> bool {
    let e = ascii_lower(ext);
    e == "ts"@ || e == "tsx"@ || e == "js"@ || e == "jsx"@ || e == "mjs"@ || e == "cjs"@
}

/// A path lies inside a `node_modules` directory.
pub open spec fn in_node_modules(path: Seq<char>) -> bool {
    starts_with(path, "node_modules/"@) || contains(path, "/node_modules/"@)
}

/// A path is analysed when its extension is a source extension, it does
/// not lie inside `node_modules`, and no ignore pattern occurs in it.
pub open spec fn keeps_source(path: Seq<char>, patterns: Seq<String>) -> bool {
    &&& extension_of(path) matches Some(e) && source_extension(e)
    &&& !in_node_modules(path)
    &&& forall|k: int| 0 <= k < patterns.len() ==> !contains(path, #[trigger] patterns[k]@)
}

fn equals_lowered(s: &Vec<char>, pat: &str) -> (b: bool)
    ensures
        b == (ascii_lower(s@) == pat@),
{
    let p = chars_of(pat);
    if p.len() != s.len() {
        return false;
    }
    let r = ends_with_lowered(s, p.as_slice());
    proof {
        if r {
            assert(ascii_lower(s@).subrange(0, s@.len() as int) =~= ascii_lower(s@));
        } else {
            assert(ascii_lower(s@).subrange(0, s@.len() as int) =~= ascii_lower(s@));
        }
    }
    r
}

/// Whether a file found under the project is analysed: its extension is
/// `ts`, `tsx`, `js`, `jsx`, `mjs` or `cjs` in any letter case, it is not
/// inside a `node_modules` directory, and none of `ignore_patterns` occurs
/// in its path.
pub fn is_source_file(path: &str, ignore_patterns: &[String]) -> (b: bool)
    ensures
        b == keeps_source(path@, ignore_patterns@),
{
    let ext = match path_extension(path) {
        Some(e) => e,
        None => return false,
    };
    let e = chars_of(ext.as_str());
    let known = equals_lowered(&e, "ts") || equals_lowered(&e, "tsx") || equals_lowered(&e, "js") || equals_lowered(
        &e,
        "jsx",
    ) || equals_lowered(&e, "mjs") || equals_lowered(&e, "cjs");
    if !known {
        return false;
    }
    if str_starts_with(path, "node_modules/") || str_contains(path, "/node_modules/") {
        return false;
    }
    let mut k: usize = 0;
    while k < ignore_patterns.len()
        invariant
            k <= ignore_patterns@.len(),
            forall|j: int| 0 <= j < k ==> !contains(path@, #[trigger] ignore_patterns@[j]@),
        decreases ignore_patterns.len() - k,
    {
        if str_contains(path, ignore_patterns[k].as_str()) {
            return false;
        }
        k += 1;
    }
    true
}

/// The export a named declaration `c` of kind `kind` makes under an `export`
/// statement: its name, its kind, its lines, and the file's path.
pub open spec fn declared_export(name: Seq<char>, kind: ExportKind, c: SyntaxNode, path: Seq<char>) -> ExportView {
    ExportView {
        name,
        kind,
        start_line: (c.info.start_row + 1) as usize,
        end_line: (c.info.end_row + 1) as usize,
        file_path: path,
        is_used: false,
    }
}

proof fn lemma_export_kinds_differ()
    ensures
        "function_declaration"@ != "class_declaration"@,
        "generator_function_declaration"@ != "class_declaration"@,
        "function_declaration"@ != "interface_declaration"@,
        "generator_function_declaration"@ != "interface_declaration"@,
        "class_declaration"@ != "interface_declaration"@,
        "function_declaration"@ != "type_alias_declaration"@,
        "generator_function_declaration"@ != "type_alias_declaration"@,
        "class_declaration"@ != "type_alias_declaration"@,
        "interface_declaration"@ != "type_alias_declaration"@,
        "lexical_declaration"@ != "type_alias_declaration"@,
        "variable_declaration"@ != "type_alias_declaration"@,
        "export_clause"@ != "type_alias_declaration"@,
        "lexical_declaration"@ != "interface_declaration"@,
        "variable_declaration"@ != "interface_declaration"@,
        "export_clause"@ != "interface_declaration"@,
        "lexical_declaration"@ != "class_declaration"@,
        "variable_declaration"@ != "class_declaration"@,
        "export_clause"@ != "class_declaration"@,
        "lexical_declaration"@ != "function_declaration"@,
        "variable_declaration"@ != "function_declaration"@,
        "export_clause"@ != "function_declaration"@,
        "lexical_declaration"@ != "generator_function_declaration"@,
        "variable_declaration"@ != "generator_function_declaration"@,
        "export_clause"@ != "generator_function_declaration"@,
        "export_clause"@ != "lexical_declaration"@,
        "export_clause"@ != "variable_declaration"@,
{
    reveal_strlit("function_declaration");
    reveal_strlit("generator_function_declaration");
    reveal_strlit("class_declaration");
    reveal_strlit("interface_declaration");
    reveal_strlit("type_alias_declaration");
    reveal_strlit("lexical_declaration");
    reveal_strlit("variable_declaration");
    reveal_strlit("export_clause");
    assert("function_declaration"@[0] != "class_declaration"@[0]);
    assert("generator_function_declaration"@[0] != "class_declaration"@[0]);
    assert("function_declaration"@[0] != "interface_declaration"@[0]);
    assert("generator_function_declaration"@[0] != "interface_declaration"@[0]);
    assert("class_declaration"@[0] != "interface_declaration"@[0]);
    assert("function_declaration"@[0] != "type_alias_declaration"@[0]);
    assert("generator_function_declaration"@[0] != "type_alias_declaration"@[0]);
    assert("class_declaration"@[0] != "type_alias_declaration"@[0]);
    assert("interface_declaration"@[0] != "type_alias_declaration"@[0]);
    assert("lexical_declaration"@[0] != "type_alias_declaration"@[0]);
    assert("variable_declaration"@[0] != "type_alias_declaration"@[0]);
    assert("export_clause"@[0] != "type_alias_declaration"@[0]);
    assert("lexical_declaration"@[0] != "interface_declaration"@[0]);
    assert("variable_declaration"@[0] != "interface_declaration"@[0]);
    assert("export_clause"@[0] != "interface_declaration"@[0]);
    assert("lexical_declaration"@[0] != "class_declaration"@[0]);
    assert("variable_declaration"@[0] != "class_declaration"@[0]);
    assert("export_clause"@[0] != "class_declaration"@[0]);
    assert("lexical_declaration"@[0] != "function_declaration"@[0]);
    assert("variable_declaration"@[0] != "function_declaration"@[0]);
    assert("export_clause"@[0] != "function_declaration"@[0]);
    assert("lexical_declaration"@[0] != "generator_function_declaration"@[0]);
    assert("variable_declaration"@[0] != "generator_function_declaration"@[0]);
    assert("export_clause"@[0] != "generator_function_declaration"@[0]);
    assert("export_clause"@[0] != "lexical_declaration"@[0]);
    assert("export_clause"@[0] != "variable_declaration"@[0]);
}

/// A named declaration directly under an `export` statement yields exactly
/// one export, with its name and the matching kind: a function (or
/// generator) function, a class, an interface or a type alias.
pub proof fn law_declarations_exported(c: SyntaxNode, source: &str, path: Seq<char>, n: Seq<char>)
    requires
        field_text(c, "name"@, source) == Some(n),
    ensures
        (has_kind(c, "function_declaration"@) || has_kind(c, "generator_function_declaration"@))
            ==> export_child(c, source, path).0 == seq![declared_export(n, ExportKind::Function, c, path)],
        has_kind(c, "class_declaration"@) ==> export_child(c, source, path).0 == seq![
            declared_export(n, ExportKind::Class, c, path),
        ],
        has_kind(c, "interface_declaration"@) ==> export_child(c, source, path).0 == seq![
            declared_export(n, ExportKind::Interface, c, path),
        ],
        has_kind(c, "type_alias_declaration"@) ==> export_child(c, source, path).0 == seq![
            declared_export(n, ExportKind::Type, c, path),
        ],
{
    lemma_export_kinds_differ();
}

proof fn lemma_declarators_exported(cs: Seq<SyntaxNode>, source: &str, path: Seq<char>)
    ensures
        forall|k: int, n: Seq<char>|
            0 <= k < cs.len() && has_kind(cs[k], "variable_declarator"@) && field_text(cs[k], "name"@, source)
                == Some(n) ==> declarators_exports(cs, source, path).contains(
                #[trigger] declared_export(n, ExportKind::Const, cs[k], path),
            ),
        forall|i: int|
            0 <= i < declarators_exports(cs, source, path).len() ==> (#[trigger] declarators_exports(
                cs,
                source,
                path,
            )[i]).kind == ExportKind::Const,
        declarators_exports(cs, source, path).len() <= cs.len(),
    decreases cs.len(),
{
    if cs.len() > 0 {
        let d = cs.drop_last();
        lemma_declarators_exported(d, source, path);
        let a = declarators_exports(d, source, path);
        let b = declarator_export(cs.last(), source, path);
        let all = declarators_exports(cs, source, path);
        assert(all == a + b);
        assert forall|k: int, n: Seq<char>|
            0 <= k < cs.len() && has_kind(cs[k], "variable_declarator"@) && field_text(cs[k], "name"@, source)
                == Some(n) implies all.contains(#[trigger] declared_export(n, ExportKind::Const, cs[k], path)) by {
            if k < d.len() {
                assert(d[k] == cs[k]);
                let i = choose|i: int| 0 <= i < a.len() && a[i] == declared_export(n, ExportKind::Const, cs[k], path);
                assert(all[i] == a[i]);
            } else {
                assert(cs[k] == cs.last());
                assert(all[a.len() as int] == b[0]);
            }
        }
        assert forall|i: int| 0 <= i < all.len() implies (#[trigger] all[i]).kind == ExportKind::Const by {
            if i < a.len() {
                assert(all[i] == a[i]);
            } else {
                assert(all[i] == b[i - a.len()]);
            }
        }
    }
}

proof fn lemma_specifiers_exported(cs: Seq<SyntaxNode>, source: &str, path: Seq<char>)
    ensures
        forall|k: int, n: Seq<char>|
            0 <= k < cs.len() && has_kind(cs[k], "export_specifier"@) && field_text(cs[k], "name"@, source)
                == Some(n) ==> specifiers_exports(cs, source, path).contains(
                #[trigger] declared_export(n, ExportKind::Named, cs[k], path),
            ),
        forall|i: int|
            0 <= i < specifiers_exports(cs, source, path).len() ==> (#[trigger] specifiers_exports(
                cs,
                source,
                path,
            )[i]).kind == ExportKind::Named,
        specifiers_exports(cs, source, path).len() <= cs.len(),
    decreases cs.len(),
{
    if cs.len() > 0 {
        let d = cs.drop_last();
        lemma_specifiers_exported(d, source, path);
        let a = specifiers_exports(d, source, path);
        let b = specifier_export(cs.last(), source, path);
        let all = specifiers_exports(cs, source, path);
        assert(all == a + b);
        assert forall|k: int, n: Seq<char>|
            0 <= k < cs.len() && has_kind(cs[k], "export_specifier"@) && field_text(cs[k], "name"@, source)
                == Some(n) implies all.contains(#[trigger] declared_export(n, ExportKind::Named, cs[k], path)) by {
            if k < d.len() {
                assert(d[k] == cs[k]);
                let i = choose|i: int| 0 <= i < a.len() && a[i] == declared_export(n, ExportKind::Named, cs[k], path);
                assert(all[i] == a[i]);
            } else {
                assert(cs[k] == cs.last());
                assert(all[a.len() as int] == b[0]);
            }
        }
        assert forall|i: int| 0 <= i < all.len() implies (#[trigger] all[i]).kind == ExportKind::Named by {
            if i < a.len() {
                assert(all[i] == a[i]);
            } else {
                assert(all[i] == b[i - a.len()]);
            }
        }
    }
}

/// Under an `export` statement, each named declarator of a `const`, `let`
/// or `var` yields an export of that name of the `const` kind, and each
/// specifier of an `export { ... }` clause one of that name of the named
/// kind; nothing else is exported there, and no more exports than there
/// are declarators or specifiers.
pub proof fn law_lists_exported(c: SyntaxNode, source: &str, path: Seq<char>)
    ensures
        (has_kind(c, "lexical_declaration"@) || has_kind(c, "variable_declaration"@)) ==> {
            &&& forall|k: int, n: Seq<char>|
                0 <= k < c.children@.len() && has_kind(c.children@[k], "variable_declarator"@)
                    && field_text(c.children@[k], "name"@, source) == Some(n) ==> export_child(
                    c,
                    source,
                    path,
                ).0.contains(#[trigger] declared_export(n, ExportKind::Const, c.children@[k], path))
            &&& forall|i: int|
                0 <= i < export_child(c, source, path).0.len() ==> (#[trigger] export_child(
                    c,
                    source,
                    path,
                ).0[i]).kind == ExportKind::Const
            &&& export_child(c, source, path).0.len() <= c.children@.len()
        },
        has_kind(c, "export_clause"@) ==> {
            &&& forall|k: int, n: Seq<char>|
                0 <= k < c.children@.len() && has_kind(c.children@[k], "export_specifier"@)
                    && field_text(c.children@[k], "name"@, source) == Some(n) ==> export_child(
                    c,
                    source,
                    path,
                ).0.contains(#[trigger] declared_export(n, ExportKind::Named, c.children@[k], path))
            &&& forall|i: int|
                0 <= i < export_child(c, source, path).0.len() ==> (#[trigger] export_child(
                    c,
                    source,
                    path,
                ).0[i]).kind == ExportKind::Named
            &&& export_child(c, source, path).0.len() <= c.children@.len()
        },
{
    lemma_export_kinds_differ();
    lemma_declarators_exported(c.children@, source, path);
    lemma_specifiers_exported(c.children@, source, path);
}

} // verus!
