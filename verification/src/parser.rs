//! The import specifiers of a module, read with the Oxc parser.
use vstd::prelude::*;
use oxc_allocator::Allocator;
use oxc_parser::config::TokensParserConfig;
use oxc_parser::Parser;
use oxc_span::SourceType;
use crate::paths::{extension, extension_of};
use crate::report::texts;
use crate::text::{chars_equal, chars_of, find, lit, occurs_at, slice, string_of};
use crate::workspace::opt_view;

verus! {

/// The texts of a list of optional strings.
pub open spec fn opt_texts(s: Seq<Option<String>>) -> Seq<Option<Seq<char>>> {
    s.map_values(|o: Option<String>| opt_view(o))
}

/// What parsing `source` as the kind of module that `path` names gives: for each
/// top-level statement in source order, the module it imports from when it is an import
/// or re-export declaration, the source text of the specifier expression of each
/// dynamic `import(..)` in the order the parser records them, and the source text of each
/// token the parser read, in source order.
pub uninterp spec fn module_parse(path: Seq<char>, source: Seq<char>) -> (Seq<Option<Seq<char>>>, Seq<Seq<char>>, Seq<Seq<char>>);

/// The module specifiers that statements import from, in order: those of import
/// declarations, `export * from` and `export { .. } from`; other statements import
/// nothing.
pub open spec fn specifiers(stmts: Seq<Option<Seq<char>>>) -> Seq<Seq<char>>
    decreases stmts.len(),
{
    if stmts.len() == 0 {
        Seq::empty()
    } else {
        specifiers(stmts.drop_last()) + match stmts.last() {
            Some(s) => seq![s],
            None => Seq::empty(),
        }
    }
}

/// The module a dynamic `import(..)` names when its argument is a plain string literal:
/// text in matching single, double or back quotes with no quote of that kind, no
/// backslash and (in back quotes) no `$` inside. Other arguments name no module.
pub open spec fn literal_request(text: Seq<char>) -> Option<Seq<char>> {
    if text.len() >= 2 && (text[0] == '\'' || text[0] == '"' || text[0] == '`') && text.last()
        == text[0] && !text.subrange(1, text.len() - 1).contains(text[0]) && !text.subrange(
        1,
        text.len() - 1,
    ).contains('\\') && !(text[0] == '`' && text.subrange(1, text.len() - 1).contains('$')) {
        Some(text.subrange(1, text.len() - 1))
    } else {
        None
    }
}

/// The modules that literal dynamic imports name, in order.
pub open spec fn literal_requests(texts: Seq<Seq<char>>) -> Seq<Seq<char>>
    decreases texts.len(),
{
    if texts.len() == 0 {
        Seq::empty()
    } else {
        literal_requests(texts.drop_last()) + match literal_request(texts.last()) {
            Some(m) => seq![m],
            None => Seq::empty(),
        }
    }
}

/// Whether the token at `i` opens a bare `require(..)` call with one literal argument:
/// the identifier `require`, not reached through `.` or `?.`, then `(`, one token, `)`.
/// The argument's module, when that token is a plain string literal.
pub open spec fn require_at(tokens: Seq<Seq<char>>, i: int) -> Option<Seq<char>> {
    if 0 <= i && i + 3 < tokens.len() && tokens[i] == "require"@ && (i == 0 || (tokens[i - 1]
        != "."@ && tokens[i - 1] != "?."@)) && tokens[i + 1] == "("@ && tokens[i + 3] == ")"@ {
        literal_request(tokens[i + 2])
    } else {
        None
    }
}

/// The modules that bare `require(..)` calls among the first `n` tokens name, in order.
pub open spec fn bare_requires_upto(tokens: Seq<Seq<char>>, n: int) -> Seq<Seq<char>>
    decreases n,
{
    if n <= 0 {
        Seq::empty()
    } else {
        bare_requires_upto(tokens, n - 1) + match require_at(tokens, n - 1) {
            Some(m) => seq![m],
            None => Seq::empty(),
        }
    }
}

/// The modules that bare `require(..)` calls name, in source order.
pub open spec fn bare_requires(tokens: Seq<Seq<char>>) -> Seq<Seq<char>> {
    bare_requires_upto(tokens, tokens.len() as int)
}

/// The import specifiers that a parse hands back: those of the import and re-export
/// statements, then those of the literal dynamic imports, then those of the bare
/// `require(..)` calls.
pub open spec fn parsed_imports(
    stmts: Seq<Option<Seq<char>>>,
    requests: Seq<Seq<char>>,
    tokens: Seq<Seq<char>>,
) -> Seq<Seq<char>> {
    specifiers(stmts) + literal_requests(requests) + bare_requires(tokens)
}

/// The import specifiers of `source` parsed as the module that `path` names.
pub open spec fn module_imports(path: Seq<char>, source: Seq<char>) -> Seq<Seq<char>> {
    parsed_imports(module_parse(path, source).0, module_parse(path, source).1, module_parse(path, source).2)
}

/// Parses `source` with `oxc_parser::Parser`, collecting tokens (as the module type that
/// `oxc_span::SourceType::from_path` gives for `path`, TypeScript when it gives none), and
/// hands back for each top-level statement of the program, in order, the value of
/// `ModuleDeclaration::source` when the statement is a module declaration (the specifier
/// of an import declaration, `export * from` or `export { .. } from`), the source text of
/// the specifier expression of each dynamic import that the parser's module record lists,
/// and the source text of each token in the parser's token list. What the parser accepts
/// is not stated: the result is named `module_parse(path, source)`.
#[verifier::external_body]
fn parse_module(path: &str, source: &str) -> (found: (Vec<Option<String>>, Vec<String>, Vec<String>))
    ensures
        (opt_texts(found.0@), texts(found.1@), texts(found.2@)) == module_parse(path@, source@),
{
    let allocator = Allocator::default();
    let kind = SourceType::from_path(path).unwrap_or(SourceType::ts());
    let parsed = Parser::new(&allocator, source, kind).with_config(TokensParserConfig).parse();
    let body = parsed.program.body.iter();
    let statements = body.map(|s| s.as_module_declaration().and_then(|m| m.source()).map(|l| l.value.to_string()));
    let dynamic = parsed.module_record.dynamic_imports.iter();
    let requests = dynamic.map(|d| d.module_request.source_text(source).to_string()).collect();
    let tokens = parsed.tokens.iter().map(|t| t.span().source_text(source).to_string()).collect();
    (statements.collect(), requests, tokens)
}

/// The module specifiers that the statements import from, in order.
pub fn select_imports(stmts: &Vec<Option<String>>) -> (r: Vec<String>)
    ensures
        texts(r@) == specifiers(opt_texts(stmts@)),
{
    let ghost all = opt_texts(stmts@);
    let mut r: Vec<String> = Vec::new();
    let mut i: usize = 0;
    while i < stmts.len()
        invariant
            i <= stmts@.len(),
            all == opt_texts(stmts@),
            texts(r@) == specifiers(all.subrange(0, i as int)),
        decreases stmts@.len() - i,
    {
        proof {
            assert(all.subrange(0, i + 1).drop_last() =~= all.subrange(0, i as int));
            assert(all.subrange(0, i + 1).last() == opt_view(stmts@[i as int]));
        }
        let ghost before = texts(r@);
        match &stmts[i] {
            Some(s) => {
                r.push(s.clone());
                assert(texts(r@) =~= before.push(s@));
            },
            None => {
                assert(texts(r@) =~= before + Seq::<Seq<char>>::empty());
            },
        }
        i = i + 1;
    }
    assert(all.subrange(0, stmts@.len() as int) =~= all);
    r
}

/// Whether `c` occurs in `t[from..to]`.
fn occurs_between(t: &Vec<char>, c: char, from: usize, to: usize) -> (r: bool)
    requires
        from <= to <= t@.len(),
    ensures
        r == t@.subrange(from as int, to as int).contains(c),
{
    let mut i = from;
    while i < to
        invariant
            from <= i <= to <= t@.len(),
            forall|k: int| from <= k < i ==> t@[k] != c,
        decreases to - i,
    {
        if t[i] == c {
            assert(t@.subrange(from as int, to as int)[i - from] == c);
            return true;
        }
        i = i + 1;
    }
    proof {
        if t@.subrange(from as int, to as int).contains(c) {
            let k = choose|k: int| 0 <= k < to - from && t@.subrange(from as int, to as int)[k] == c;
            assert(t@[from + k] == c);
        }
    }
    false
}

/// The module a dynamic import's argument names, if it is a plain string literal.
pub fn literal_module(text: &str) -> (r: Option<String>)
    ensures
        opt_view(r) == literal_request(text@),
{
    let t = chars_of(text);
    if t.len() < 2 {
        return None;
    }
    let q = t[0];
    let n = t.len();
    if !(q == '\'' || q == '"' || q == '`') || t[n - 1] != q || occurs_between(&t, q, 1, n - 1)
        || occurs_between(&t, '\\', 1, n - 1) || (q == '`' && occurs_between(&t, '$', 1, n - 1)) {
        return None;
    }
    Some(string_of(&slice(&t, 1, n - 1)))
}

/// Whether `s` reads `t`.
fn reads(s: &String, t: &str) -> (r: bool)
    ensures
        r == (s@ == t@),
{
    chars_equal(&chars_of(s.as_str()), &lit(t))
}

/// The modules that the literal dynamic imports among `requests` name, in order.
fn dynamic_modules(requests: &Vec<String>) -> (found: Vec<String>)
    ensures
        texts(found@) == literal_requests(texts(requests@)),
{
    let mut found: Vec<String> = Vec::new();
    let mut i: usize = 0;
    while i < requests.len()
        invariant
            i <= requests@.len(),
            texts(found@) == literal_requests(texts(requests@).subrange(0, i as int)),
        decreases requests@.len() - i,
    {
        proof {
            assert(texts(requests@).subrange(0, i + 1).drop_last() =~= texts(requests@).subrange(0, i as int));
        }
        let ghost before = texts(found@);
        match literal_module(requests[i].as_str()) {
            Some(m) => {
                found.push(m);
                assert(texts(found@) =~= before.push(literal_request(requests@[i as int]@).unwrap()));
            },
            None => {},
        }
        i = i + 1;
        assert(texts(found@) =~= literal_requests(texts(requests@).subrange(0, i as int)));
    }
    assert(texts(requests@).subrange(0, requests@.len() as int) =~= texts(requests@));
    found
}

/// The module that the bare `require(..)` call opening at token `i` names, if any.
fn require_module(tokens: &Vec<String>, i: usize) -> (r: Option<String>)
    requires
        i < tokens@.len(),
    ensures
        opt_view(r) == require_at(texts(tokens@), i as int),
{
    let ghost t = texts(tokens@);
    proof {
        reveal_strlit("require");
        reveal_strlit(".");
        reveal_strlit("?.");
        reveal_strlit("(");
        reveal_strlit(")");
    }
    if tokens.len() - i <= 3 || !reads(&tokens[i], "require") {
        return None;
    }
    if i > 0 && (reads(&tokens[i - 1], ".") || reads(&tokens[i - 1], "?.")) {
        return None;
    }
    if !reads(&tokens[i + 1], "(") || !reads(&tokens[i + 3], ")") {
        return None;
    }
    assert(t[i as int] == tokens@[i as int]@ && t[i + 2] == tokens@[i + 2]@);
    literal_module(tokens[i + 2].as_str())
}

/// The modules that the bare `require(..)` calls among `tokens` name, in source order.
fn required_modules(tokens: &Vec<String>) -> (found: Vec<String>)
    ensures
        texts(found@) == bare_requires(texts(tokens@)),
{
    let ghost t = texts(tokens@);
    let mut found: Vec<String> = Vec::new();
    let mut i: usize = 0;
    while i < tokens.len()
        invariant
            i <= tokens@.len(),
            t == texts(tokens@),
            texts(found@) == bare_requires_upto(t, i as int),
        decreases tokens@.len() - i,
    {
        let ghost before = texts(found@);
        match require_module(tokens, i) {
            Some(m) => {
                found.push(m);
                assert(texts(found@) =~= before.push(require_at(t, i as int).unwrap()));
            },
            None => {
                assert(texts(found@) =~= before + Seq::<Seq<char>>::empty());
            },
        }
        i = i + 1;
    }
    found
}

/// The import specifiers of a parsed module, from what the parser handed back: the
/// statements' specifiers, then the modules of the literal dynamic imports, then those of
/// the bare `require(..)` calls among the tokens.
pub fn collect_imports(stmts: &Vec<Option<String>>, requests: &Vec<String>, tokens: &Vec<String>) -> (found: Vec<String>)
    ensures
        texts(found@) == parsed_imports(opt_texts(stmts@), texts(requests@), texts(tokens@)),
{
    let mut found = select_imports(stmts);
    let mut dynamic = dynamic_modules(requests);
    let mut required = required_modules(tokens);
    let ghost (a, b, c) = (texts(found@), texts(dynamic@), texts(required@));
    found.append(&mut dynamic);
    assert(texts(found@) =~= a + b);
    found.append(&mut required);
    assert(texts(found@) =~= a + b + c);
    found
}

/// The import specifiers of the module `path` with text `source`.
fn parse_imports(path: &str, source: &str) -> (found: Vec<String>)
    ensures
        texts(found@) == module_imports(path@, source@),
{
    let (statements, requests, tokens) = parse_module(path, source);
    collect_imports(&statements, &requests, &tokens)
}

/// The first position at or after `i` where `p` occurs in `s`.
pub open spec fn first_from(s: Seq<char>, p: Seq<char>, i: int) -> Option<int>
    decreases s.len() + 1 - i,
{
    if i < 0 || i > s.len() {
        None
    } else if occurs_at(s, p, i) {
        Some(i)
    } else {
        first_from(s, p, i + 1)
    }
}

/// The text of the first `<script ...>` block of a Vue single-file component.
pub open spec fn vue_script(src: Seq<char>) -> Option<Seq<char>> {
    match first_from(src, "<script"@, 0) {
        None => None,
        Some(t) => match first_from(src.skip(t), ">"@, 0) {
            None => None,
            Some(g) => {
                let start = t + g + 1;
                match first_from(src.skip(start), "</script>"@, 0) {
                    None => None,
                    Some(e) => Some(src.subrange(start, start + e)),
                }
            },
        },
    }
}

/// The text that is parsed: a Vue component's script block when it has one.
pub open spec fn parsed_text(path: Seq<char>, source: Seq<char>) -> Seq<char> {
    if extension(path) == Some("vue"@) {
        match vue_script(source) {
            Some(s) => s,
            None => source,
        }
    } else {
        source
    }
}

pub proof fn lemma_first_from(s: Seq<char>, p: Seq<char>, k: int, i: int)
    requires
        0 <= k <= i <= s.len(),
        occurs_at(s, p, i),
        forall|j: int| k <= j < i ==> !occurs_at(s, p, j),
    ensures
        first_from(s, p, k) == Some(i),
    decreases i - k,
{
    if k < i {
        lemma_first_from(s, p, k + 1, i);
    }
}

pub proof fn lemma_first_from_none(s: Seq<char>, p: Seq<char>, k: int)
    requires
        0 <= k,
        forall|j: int| k <= j ==> !occurs_at(s, p, j),
    ensures
        first_from(s, p, k) is None,
    decreases s.len() + 1 - k,
{
    if k <= s.len() {
        lemma_first_from_none(s, p, k + 1);
    }
}

/// Where `p` first occurs in `s`.
fn first_of(s: &Vec<char>, p: &str) -> (r: Option<usize>)
    ensures
        match r {
            Some(i) => first_from(s@, p@, 0) == Some(i as int) && i + p@.len() <= s@.len(),
            None => first_from(s@, p@, 0) is None,
        },
{
    let q = lit(p);
    let r = find(s, &q);
    proof {
        match r {
            Some(i) => lemma_first_from(s@, p@, 0, i as int),
            None => lemma_first_from_none(s@, p@, 0),
        }
    }
    r
}

/// The script block of a Vue single-file component: the text between the `>` that ends
/// the first `<script` tag and the next `</script>`.
pub fn extract_vue_script(source: &str) -> (r: Option<String>)
    ensures
        opt_view(r) == vue_script(source@),
{
    let src = chars_of(source);
    let t = match first_of(&src, "<script") {
        None => return None,
        Some(t) => t,
    };
    let after_tag = slice(&src, t, src.len());
    let g = match first_of(&after_tag, ">") {
        None => return None,
        Some(g) => g,
    };
    proof {
        reveal_strlit(">");
    }
    let start = t + g + 1;
    let rest = slice(&src, start, src.len());
    let e = match first_of(&rest, "</script>") {
        None => return None,
        Some(e) => e,
    };
    proof {
        reveal_strlit("</script>");
    }
    Some(string_of(&slice(&src, start, start + e)))
}

/// The import specifiers of a module; a Vue component's script block is parsed in place
/// of the whole file.
pub fn imports(path: &str, source: &str) -> (found: Vec<String>)
    ensures
        texts(found@) == module_imports(path@, parsed_text(path@, source@)),
{
    let vue = match extension_of(&chars_of(path)) {
        Some(e) => chars_equal(&e, &lit("vue")),
        None => false,
    };
    if vue {
        match extract_vue_script(source) {
            Some(script) => return parse_imports(path, script.as_str()),
            None => {},
        }
    }
    parse_imports(path, source)
}

} // verus!
