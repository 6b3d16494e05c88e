//! Checker tests. Sources are read by a small reader of the language's
//! surface syntax, written here for the tests, that builds the library's
//! AST; the checker then runs on that.

use mimz_core::ast::{
    Arm, BinOp, Builtin, BundleDecl, ConstDecl, Conn, Dir, Edge, EnumDecl, EnumVariant, Expr,
    ExprKind, ExternModule, FieldDecl, FieldInit, File, FnParam, FnStmt, ForEach, ForEachSource,
    FuncDecl, Ident, Import, Inst, LValue, LocalLet, Module, ModuleItem, NamedArg, OnBlock, Param,
    ParamTy, Pattern, PayloadField, QualIdent, Repeat, SeqStmt, SyncLoop, TestDecl, TestStmt, TopItem,
    Type, UnOp,
};
use mimz_core::analysis::{build_index, completions, resolve_at, CandKind, LoadedFile, SymKind};
use mimz_core::checker::check;
use mimz_core::bits::Bits;
use mimz_core::checker::consteval::{eval, ConstVal, Env};
use mimz_core::diag::Diag;
use mimz_core::span::Span;

#[derive(Clone, Debug, PartialEq)]
enum Tok {
    Ident(String),
    Int(u128, String, Option<(u128, u32)>),
    Str(String),
    Sym(&'static str),
    Newline,
    Eof,
}

const SYMS: [&str; 38] = [
    "<-", "=>", "->", "==", "!=", "<=", ">=", "&&", "||", "<<", ">>", "+%", "-%", "*%", "..", "+",
    "-", "*", "/", "%", "&", "|", "^", "!", "~", "<", ">", "=", "(", ")", "{", "}", "[", "]", ",",
    ":", ".", "?",
];

fn lex(src: &str) -> Vec<(Tok, Span)> {
    let b = src.as_bytes();
    let mut i = 0usize;
    let mut out: Vec<(Tok, Span)> = Vec::new();
    while i < b.len() {
        let c = b[i];
        if c == b' ' || c == b'\t' || c == b'\r' {
            i += 1;
        } else if c == b'\n' {
            if !matches!(out.last(), Some((Tok::Newline, _))) {
                out.push((Tok::Newline, Span { start: i, end: i + 1 }));
            }
            i += 1;
        } else if c == b'/' && i + 1 < b.len() && b[i + 1] == b'/' {
            while i < b.len() && b[i] != b'\n' {
                i += 1;
            }
        } else if c == b'"' {
            let start = i;
            i += 1;
            let s0 = i;
            while i < b.len() && b[i] != b'"' {
                i += 1;
            }
            let text = src[s0..i].to_string();
            i += 1;
            out.push((Tok::Str(text), Span { start, end: i }));
        } else if c.is_ascii_digit() {
            let start = i;
            if c == b'0' && i + 1 < b.len() && (b[i + 1] == b'x' || b[i + 1] == b'b') {
                let radix: u32 = if b[i + 1] == b'x' { 16 } else { 2 };
                i += 2;
                let mut value: u128 = 0;
                let mut mask: u128 = 0;
                let mut width: u32 = 0;
                let mut has_q = false;
                while i < b.len() && (b[i].is_ascii_hexdigit() || b[i] == b'_' || b[i] == b'?') {
                    if b[i] == b'_' {
                        i += 1;
                        continue;
                    }
                    if b[i] == b'?' {
                        has_q = true;
                        value <<= 1;
                        mask <<= 1;
                        width += 1;
                    } else {
                        let d = (b[i] as char).to_digit(radix).expect("digit");
                        if radix == 2 {
                            value = (value << 1) | d as u128;
                            mask = (mask << 1) | 1;
                            width += 1;
                        } else {
                            value = value * 16 + d as u128;
                            width += 4;
                        }
                    }
                    i += 1;
                }
                let raw = src[start..i].to_string();
                let m = if has_q { Some((mask, width)) } else { None };
                out.push((Tok::Int(value, raw, m), Span { start, end: i }));
            } else {
                let mut value: u128 = 0;
                while i < b.len() && (b[i].is_ascii_digit() || b[i] == b'_') {
                    if b[i] != b'_' {
                        value = value * 10 + (b[i] - b'0') as u128;
                    }
                    i += 1;
                }
                let raw = src[start..i].to_string();
                out.push((Tok::Int(value, raw, None), Span { start, end: i }));
            }
        } else if c.is_ascii_alphabetic() || c == b'_' {
            let start = i;
            while i < b.len() && (b[i].is_ascii_alphanumeric() || b[i] == b'_') {
                i += 1;
            }
            out.push((Tok::Ident(src[start..i].to_string()), Span { start, end: i }));
        } else {
            let mut found = None;
            for s in SYMS.iter() {
                if src[i..].starts_with(s) {
                    found = Some(*s);
                    break;
                }
            }
            let s = found.unwrap_or_else(|| panic!("unexpected character {:?}", c as char));
            out.push((Tok::Sym(s), Span { start: i, end: i + s.len() }));
            i += s.len();
        }
    }
    out.push((Tok::Eof, Span { start: src.len(), end: src.len() }));
    out
}

struct P {
    toks: Vec<(Tok, Span)>,
    pos: usize,
}

fn ident(name: &str, span: Span) -> Ident {
    Ident { name: name.to_string(), span }
}

fn join(a: Span, b: Span) -> Span {
    Span { start: a.start, end: b.end }
}

impl P {
    fn peek(&self) -> &Tok {
        &self.toks[self.pos].0
    }
    fn peek_at(&self, k: usize) -> &Tok {
        let i = (self.pos + k).min(self.toks.len() - 1);
        &self.toks[i].0
    }
    fn span(&self) -> Span {
        self.toks[self.pos].1
    }
    fn prev_span(&self) -> Span {
        self.toks[self.pos.saturating_sub(1)].1
    }
    fn bump(&mut self) -> (Tok, Span) {
        let t = self.toks[self.pos].clone();
        if self.pos + 1 < self.toks.len() {
            self.pos += 1;
        }
        t
    }
    fn is_sym(&self, s: &str) -> bool {
        matches!(self.peek(), Tok::Sym(x) if *x == s)
    }
    fn is_kw(&self, k: &str) -> bool {
        matches!(self.peek(), Tok::Ident(x) if x == k)
    }
    fn eat_sym(&mut self, s: &str) -> bool {
        if self.is_sym(s) {
            self.bump();
            true
        } else {
            false
        }
    }
    fn eat_kw(&mut self, k: &str) -> bool {
        if self.is_kw(k) {
            self.bump();
            true
        } else {
            false
        }
    }
    fn expect_sym(&mut self, s: &str) {
        if !self.eat_sym(s) {
            panic!("expected `{}` at {:?}, found {:?}", s, self.span(), self.peek());
        }
    }
    fn expect_kw(&mut self, k: &str) {
        if !self.eat_kw(k) {
            panic!("expected `{}` at {:?}, found {:?}", k, self.span(), self.peek());
        }
    }
    fn skip_nl(&mut self) {
        while matches!(self.peek(), Tok::Newline) {
            self.bump();
        }
    }
    fn skip_sep(&mut self) {
        while matches!(self.peek(), Tok::Newline) || self.is_sym(",") {
            self.bump();
        }
    }
    fn name(&mut self) -> Ident {
        match self.bump() {
            (Tok::Ident(s), sp) => Ident { name: s, span: sp },
            (t, sp) => panic!("expected a name at {:?}, found {:?}", sp, t),
        }
    }

    // ---- file level -------------------------------------------------

    fn file(&mut self) -> File {
        let mut imports = Vec::new();
        let mut items = Vec::new();
        self.skip_nl();
        while !matches!(self.peek(), Tok::Eof) {
            if self.is_kw("import") {
                let start = self.span();
                self.bump();
                let mut path = vec![self.name()];
                while self.eat_sym(".") {
                    path.push(self.name());
                }
                imports.push(Import { path, span: join(start, self.prev_span()), resolved_file: None });
            } else {
                items.push(self.top_item());
            }
            self.skip_nl();
        }
        File { imports, items }
    }

    fn top_item(&mut self) -> TopItem {
        if self.is_kw("module") {
            TopItem::Module(self.module())
        } else if self.is_kw("extern") {
            TopItem::ExternModule(self.extern_module())
        } else if self.is_kw("const") {
            TopItem::Const(self.const_decl())
        } else if self.is_kw("enum") {
            TopItem::Enum(self.enum_decl())
        } else if self.is_kw("bundle") {
            TopItem::Bundle(self.bundle_decl())
        } else if self.is_kw("fn") {
            TopItem::Func(self.func())
        } else if self.is_kw("test") {
            TopItem::Test(self.test_decl())
        } else {
            panic!("unexpected top-level {:?} at {:?}", self.peek(), self.span());
        }
    }

    fn params(&mut self) -> Vec<Param> {
        let mut params = Vec::new();
        if self.eat_sym("(") {
            self.skip_sep();
            while !self.eat_sym(")") {
                let name = self.name();
                self.expect_sym(":");
                let ty = if self.eat_kw("bool") {
                    ParamTy::Bool
                } else {
                    self.expect_kw("int");
                    ParamTy::Int
                };
                let default = if self.eat_sym("=") { Some(self.expr()) } else { None };
                params.push(Param { name, ty, default });
                self.skip_sep();
            }
        }
        params
    }

    fn test_decl(&mut self) -> TestDecl {
        let start = self.span();
        self.expect_kw("test");
        let name = match self.bump() {
            (Tok::Str(s), _) => s,
            other => panic!("expected a test name, got {:?}", other),
        };
        self.expect_kw("for");
        let module = self.qual_ident();
        let mut args = Vec::new();
        if self.eat_sym("(") {
            self.skip_sep();
            while !self.eat_sym(")") {
                let pname = self.name();
                self.expect_sym(":");
                let value = self.expr();
                args.push(NamedArg { name: pname, value });
                self.skip_sep();
            }
        }
        self.expect_sym("{");
        let mut body = Vec::new();
        self.skip_nl();
        while !self.eat_sym("}") {
            body.push(self.test_stmt());
            self.skip_nl();
        }
        TestDecl { name, module, args, body, span: join(start, self.prev_span()) }
    }

    fn test_stmt(&mut self) -> TestStmt {
        if self.eat_kw("expect") {
            return TestStmt::Expect(self.expr());
        }
        if self.eat_kw("tick") {
            self.expect_sym("(");
            let clock = self.name();
            let count = if self.eat_sym(",") { Some(self.expr()) } else { None };
            self.expect_sym(")");
            return TestStmt::Tick { clock, count };
        }
        let name = self.name();
        self.expect_sym("=");
        TestStmt::Drive { name, value: self.expr() }
    }

    fn module(&mut self) -> Module {
        let start = self.span();
        self.expect_kw("module");
        let name = self.name();
        let params = self.params();
        let items = self.item_block();
        Module { name, params, items, span: join(start, self.prev_span()) }
    }

    fn extern_module(&mut self) -> ExternModule {
        let start = self.span();
        self.expect_kw("extern");
        self.expect_kw("module");
        let name = self.name();
        let params = self.params();
        self.skip_nl();
        self.expect_sym("{");
        let mut doc = None;
        let mut items = Vec::new();
        self.skip_nl();
        while !self.eat_sym("}") {
            if self.is_kw("doc") && matches!(self.peek_at(1), Tok::Sym(":")) {
                self.bump();
                self.bump();
                if let (Tok::Str(s), _) = self.bump() {
                    doc = Some(s);
                }
            } else {
                items.push(self.module_item());
            }
            self.skip_nl();
        }
        ExternModule { name, verilog_name: None, params, doc, items, span: join(start, self.prev_span()) }
    }

    fn const_decl(&mut self) -> ConstDecl {
        self.expect_kw("const");
        let name = self.name();
        self.expect_sym(":");
        let ty = if self.eat_kw("bool") {
            ParamTy::Bool
        } else {
            self.expect_kw("int");
            ParamTy::Int
        };
        self.expect_sym("=");
        let value = self.expr();
        ConstDecl { name, ty, value }
    }

    fn enum_decl(&mut self) -> EnumDecl {
        let start = self.span();
        self.expect_kw("enum");
        let name = self.name();
        self.expect_sym("{");
        let mut variants = Vec::new();
        self.skip_sep();
        while !self.eat_sym("}") {
            let vname = self.name();
            let mut fields = Vec::new();
            if self.eat_sym("(") {
                self.skip_sep();
                while !self.eat_sym(")") {
                    let fs = self.span();
                    let fname = self.name();
                    self.expect_sym(":");
                    let ty = self.ty();
                    fields.push(PayloadField { name: fname, ty, span: join(fs, self.prev_span()) });
                    self.skip_sep();
                }
            }
            let vspan = join(vname.span, self.prev_span());
            variants.push(EnumVariant { name: vname, fields, span: vspan });
            self.skip_sep();
        }
        EnumDecl { name, variants, span: join(start, self.prev_span()), inferred_total_width: None }
    }

    fn bundle_decl(&mut self) -> BundleDecl {
        let start = self.span();
        self.expect_kw("bundle");
        let name = self.name();
        let params = self.params();
        self.expect_sym("{");
        let mut fields = Vec::new();
        self.skip_sep();
        while !self.eat_sym("}") {
            let fs = self.span();
            let fname = self.name();
            self.expect_sym(":");
            let ty = self.ty();
            fields.push(FieldDecl { name: fname, ty, span: join(fs, self.prev_span()) });
            self.skip_sep();
        }
        BundleDecl { name, params, fields, span: join(start, self.prev_span()) }
    }

    fn func(&mut self) -> FuncDecl {
        let start = self.span();
        self.expect_kw("fn");
        let name = self.name();
        self.expect_sym("(");
        let mut params = Vec::new();
        self.skip_sep();
        while !self.eat_sym(")") {
            let ps = self.span();
            let pname = self.name();
            self.expect_sym(":");
            let ty = self.ty();
            params.push(FnParam { name: pname, ty, span: join(ps, self.prev_span()) });
            self.skip_sep();
        }
        self.expect_sym("->");
        let ret = self.ty();
        self.skip_nl();
        self.expect_sym("{");
        let mut stmts = Vec::new();
        let tail;
        loop {
            self.skip_nl();
            if self.starts_fn_stmt() {
                stmts.push(self.fn_stmt());
            } else {
                tail = self.expr();
                self.skip_nl();
                self.expect_sym("}");
                break;
            }
        }
        FuncDecl { name, params, ret, stmts, tail, span: join(start, self.prev_span()) }
    }

    fn starts_fn_stmt(&self) -> bool {
        self.is_kw("let") || self.is_kw("if") || self.is_kw("return") || self.is_kw("loop") || self.is_kw("foreach")
    }

    fn fn_block(&mut self) -> Vec<FnStmt> {
        self.expect_sym("{");
        let mut stmts = Vec::new();
        self.skip_nl();
        while !self.eat_sym("}") {
            stmts.push(self.fn_stmt());
            self.skip_nl();
        }
        stmts
    }

    fn fn_stmt(&mut self) -> FnStmt {
        let start = self.span();
        if self.eat_kw("let") {
            let name = self.name();
            self.expect_sym("=");
            let value = self.expr();
            FnStmt::Let(LocalLet { name, value, span: join(start, self.prev_span()), inferred_width: None })
        } else if self.eat_kw("if") {
            let cond = self.expr();
            let then = self.fn_block();
            let els = if self.eat_kw("else") {
                if self.is_kw("if") {
                    Some(vec![self.fn_stmt()])
                } else {
                    Some(self.fn_block())
                }
            } else {
                None
            };
            FnStmt::If { cond, then, els }
        } else if self.eat_kw("return") {
            FnStmt::Return(self.expr())
        } else if self.eat_kw("loop") {
            let var = self.name();
            self.expect_sym(":");
            let lo = self.expr();
            self.expect_sym("..");
            let hi = self.expr();
            let body = self.fn_block();
            FnStmt::Loop { var, lo, hi, body, span: join(start, self.prev_span()) }
        } else if self.eat_kw("foreach") {
            let (var, source) = self.foreach_head();
            let body = self.fn_block();
            FnStmt::ForEach { var, source, body, span: join(start, self.prev_span()) }
        } else {
            panic!("expected a statement at {:?}", self.span());
        }
    }

    fn foreach_head(&mut self) -> (Ident, ForEachSource) {
        let var = self.name();
        self.expect_kw("in");
        let first = self.expr();
        let source = if self.eat_sym("..") {
            let hi = self.expr();
            ForEachSource::Range { lo: first, hi }
        } else {
            match first.kind {
                ExprKind::Ident(n) => ForEachSource::Elements(Ident { name: n, span: first.span }),
                _ => panic!("foreach source must be a name or a range"),
            }
        };
        (var, source)
    }

    // ---- module items -----------------------------------------------

    fn item_block(&mut self) -> Vec<ModuleItem> {
        self.skip_nl();
        self.expect_sym("{");
        let mut items = Vec::new();
        self.skip_nl();
        while !self.eat_sym("}") {
            items.push(self.module_item());
            self.skip_nl();
        }
        items
    }

    fn module_item(&mut self) -> ModuleItem {
        let start = self.span();
        if self.is_kw("in") || self.is_kw("out") {
            let dir = if self.eat_kw("in") { Dir::In } else {
                self.bump();
                Dir::Out
            };
            let name = self.name();
            self.expect_sym(":");
            let ty = self.ty();
            return ModuleItem::Port { dir, name, ty };
        }
        if self.eat_kw("clock") {
            return ModuleItem::Clock(self.name());
        }
        if self.eat_kw("reset") {
            let is_async = self.eat_kw("async");
            return ModuleItem::Reset { name: self.name(), is_async };
        }
        if self.eat_kw("wire") {
            let name = self.name();
            self.expect_sym(":");
            let ty = self.ty();
            self.expect_sym("=");
            let init = self.expr();
            return ModuleItem::Wire { name, ty, init };
        }
        if self.eat_kw("reg") {
            let name = self.name();
            self.expect_sym(":");
            let ty = self.ty();
            self.expect_sym("=");
            let reset = self.expr();
            return ModuleItem::Reg { name, ty, reset };
        }
        if self.eat_kw("mem") {
            let name = self.name();
            self.expect_sym(":");
            let full = self.ty();
            self.expect_sym("=");
            let init = self.expr();
            return match full {
                Type::Array { elem, len } => ModuleItem::Mem { name, ty: *elem, depth: *len, init },
                _ => panic!("a memory type needs a depth"),
            };
        }
        if self.is_kw("const") && matches!(self.peek_at(1), Tok::Ident(k) if k == "if") {
            self.bump();
            self.bump();
            let cond = self.expr();
            let then = self.item_block();
            let els = if self.eat_kw("else") { Some(self.item_block()) } else { None };
            return ModuleItem::ConstIf { cond, then, els, span: join(start, self.prev_span()) };
        }
        if self.is_kw("const") {
            return ModuleItem::Const(self.const_decl());
        }
        if self.is_kw("enum") {
            return ModuleItem::Enum(self.enum_decl());
        }
        if self.eat_kw("let") {
            if matches!(self.peek(), Tok::Newline) {
                return ModuleItem::Error(join(start, self.prev_span()));
            }
            if self.eat_sym("{") {
                let mut bindings = Vec::new();
                self.skip_sep();
                while !self.eat_sym("}") {
                    bindings.push(self.name());
                    self.skip_sep();
                }
                self.expect_sym("=");
                let expr = self.expr();
                return ModuleItem::BundleDestructure { bindings, expr, span: join(start, self.prev_span()) };
            }
            let name = self.name();
            let index = if self.eat_sym("[") {
                let e = self.expr();
                self.expect_sym("]");
                Some(e)
            } else {
                None
            };
            self.expect_sym("=");
            let module = self.qual_ident();
            let mut args = Vec::new();
            self.expect_sym("(");
            self.skip_sep();
            while !self.eat_sym(")") {
                let pname = self.name();
                self.expect_sym(":");
                let value = self.expr();
                args.push(NamedArg { name: pname, value });
                self.skip_sep();
            }
            let mut conns = Vec::new();
            if self.eat_sym("{") {
                self.skip_sep();
                while !self.eat_sym("}") {
                    let port = self.name();
                    self.expect_sym(":");
                    let signal = self.expr();
                    conns.push(Conn { port, signal });
                    self.skip_sep();
                }
            }
            return ModuleItem::Inst(Inst { name, index, module, args, conns, span: join(start, self.prev_span()) });
        }
        if self.eat_kw("on") {
            let edge = if self.eat_kw("rise") {
                Edge::Rise
            } else {
                self.expect_kw("fall");
                Edge::Fall
            };
            self.expect_sym("(");
            let clock = self.name();
            self.expect_sym(")");
            let body = self.seq_block();
            return ModuleItem::On(OnBlock { clock, edge, body, span: join(start, self.prev_span()) });
        }
        if self.eat_kw("repeat") {
            let var = self.name();
            self.expect_sym(":");
            let lo = self.expr();
            self.expect_sym("..");
            let hi = self.expr();
            let items = self.item_block();
            return ModuleItem::Repeat(Repeat { var, lo, hi, items, span: join(start, self.prev_span()) });
        }
        if self.eat_kw("foreach") {
            let (var, source) = self.foreach_head();
            let items = self.item_block();
            return ModuleItem::ForEach(ForEach { var, source, items, span: join(start, self.prev_span()) });
        }
        if self.is_kw("sync") && matches!(self.peek_at(1), Tok::Ident(k) if k == "loop") {
            self.bump();
            self.bump();
            let name = self.name();
            self.expect_kw("on");
            let edge = if self.eat_kw("rise") {
                Edge::Rise
            } else {
                self.expect_kw("fall");
                Edge::Fall
            };
            self.expect_sym("(");
            let clock = self.name();
            self.expect_sym(")");
            self.expect_sym("(");
            let var = self.name();
            self.expect_sym(":");
            let lo = self.expr();
            self.expect_sym("..");
            let hi = self.expr();
            self.expect_sym(")");
            self.expect_sym("->");
            let result_name = self.name();
            self.expect_sym(":");
            let result_ty = self.ty();
            self.expect_sym("=");
            let result_init = self.expr();
            let body = self.seq_block();
            return ModuleItem::SyncLoop(Box::new(SyncLoop {
                name,
                clock,
                edge,
                var,
                lo,
                hi,
                result_name,
                result_ty,
                result_init,
                body,
                span: join(start, self.prev_span()),
            }));
        }
        let lhs = self.lvalue();
        self.expect_sym("=");
        if matches!(self.peek(), Tok::Newline | Tok::Sym("}")) {
            return ModuleItem::Error(join(start, self.prev_span()));
        }
        let rhs = self.expr();
        ModuleItem::Drive { lhs, rhs }
    }

    fn qual_ident(&mut self) -> QualIdent {
        let start = self.span();
        let mut parts = vec![self.name()];
        while self.is_sym(".") && matches!(self.peek_at(1), Tok::Ident(_)) {
            self.bump();
            parts.push(self.name());
        }
        let name = parts.pop().unwrap();
        QualIdent { path: parts, name, span: join(start, self.prev_span()), resolved_file: None }
    }

    fn lvalue(&mut self) -> LValue {
        let base = self.name();
        let index = if self.eat_sym("[") {
            let first = self.expr();
            let second = if self.eat_sym(":") { Some(self.expr()) } else { None };
            self.expect_sym("]");
            Some((first, second))
        } else {
            None
        };
        let span = join(base.span, self.prev_span());
        LValue { base, index, span }
    }

    fn seq_block(&mut self) -> Vec<SeqStmt> {
        self.skip_nl();
        self.expect_sym("{");
        let mut body = Vec::new();
        self.skip_nl();
        while !self.eat_sym("}") {
            body.push(self.seq_stmt());
            self.skip_nl();
        }
        body
    }

    fn seq_stmt(&mut self) -> SeqStmt {
        let start = self.span();
        if self.eat_kw("if") {
            let cond = self.expr();
            let then = self.seq_block();
            let els = if self.eat_kw("else") {
                if self.is_kw("if") {
                    Some(vec![self.seq_stmt()])
                } else {
                    Some(self.seq_block())
                }
            } else {
                None
            };
            return SeqStmt::If { cond, then, els };
        }
        if self.eat_kw("default") {
            let name = self.name();
            self.expect_sym("<-");
            let val = self.expr();
            return SeqStmt::Default { name, val, span: join(start, self.prev_span()) };
        }
        if self.eat_kw("loop") {
            let var = self.name();
            self.expect_sym(":");
            let lo = self.expr();
            self.expect_sym("..");
            let hi = self.expr();
            let body = self.seq_block();
            return SeqStmt::Loop { var, lo, hi, body, span: join(start, self.prev_span()) };
        }
        if self.eat_kw("foreach") {
            let (var, source) = self.foreach_head();
            let body = self.seq_block();
            return SeqStmt::ForEach { var, source, body, span: join(start, self.prev_span()) };
        }
        let lhs = self.lvalue();
        self.expect_sym("<-");
        let rhs = self.expr();
        SeqStmt::Assign { lhs, rhs }
    }

    // ---- types --------------------------------------------------------

    fn ty(&mut self) -> Type {
        let mut t = if self.eat_kw("bit") {
            Type::Bit
        } else if self.is_kw("bits") || self.is_kw("signed") {
            let signed = self.is_kw("signed");
            self.bump();
            self.expect_sym("[");
            let w = self.expr();
            self.expect_sym("]");
            if signed { Type::Signed(Box::new(w)) } else { Type::Bits(Box::new(w)) }
        } else {
            let name = self.qual_ident();
            if self.eat_sym("(") {
                let mut args = Vec::new();
                self.skip_sep();
                while !self.eat_sym(")") {
                    let pname = self.name();
                    self.expect_sym(":");
                    let value = self.expr();
                    args.push(NamedArg { name: pname, value });
                    self.skip_sep();
                }
                Type::Bundle { name, args }
            } else {
                Type::Named(name)
            }
        };
        while self.eat_sym("[") {
            let len = self.expr();
            self.expect_sym("]");
            t = Type::Array { elem: Box::new(t), len: Box::new(len) };
        }
        t
    }

    // ---- expressions ----------------------------------------------------

    fn expr(&mut self) -> Expr {
        self.binary(0)
    }

    fn bin_op(&self, level: usize) -> Option<BinOp> {
        let s = match self.peek() {
            Tok::Sym(s) => *s,
            _ => return None,
        };
        let op = match (level, s) {
            (0, "||") => BinOp::LogicOr,
            (1, "&&") => BinOp::LogicAnd,
            (2, "==") => BinOp::Eq,
            (2, "!=") => BinOp::Ne,
            (2, "<") => BinOp::Lt,
            (2, "<=") => BinOp::Le,
            (2, ">") => BinOp::Gt,
            (2, ">=") => BinOp::Ge,
            (3, "|") => BinOp::BitOr,
            (4, "^") => BinOp::BitXor,
            (5, "&") => BinOp::BitAnd,
            (6, "<<") => BinOp::Shl,
            (6, ">>") => BinOp::Shr,
            (7, "+") => BinOp::Add,
            (7, "-") => BinOp::Sub,
            (7, "+%") => BinOp::AddWrap,
            (7, "-%") => BinOp::SubWrap,
            (8, "*") => BinOp::Mul,
            (8, "*%") => BinOp::MulWrap,
            _ => return None,
        };
        Some(op)
    }

    fn binary(&mut self, level: usize) -> Expr {
        if level > 8 {
            return self.unary();
        }
        let mut lhs = self.binary(level + 1);
        while let Some(op) = self.bin_op(level) {
            self.bump();
            self.skip_nl();
            let rhs = self.binary(level + 1);
            let span = join(lhs.span, rhs.span);
            lhs = Expr { kind: ExprKind::Binary { op, lhs: Box::new(lhs), rhs: Box::new(rhs) }, span };
        }
        lhs
    }

    fn unary(&mut self) -> Expr {
        let start = self.span();
        let op = if self.is_sym("-") {
            Some(UnOp::Neg)
        } else if self.is_sym("!") {
            Some(UnOp::LogicNot)
        } else if self.is_sym("~") {
            Some(UnOp::BitNot)
        } else {
            None
        };
        if let Some(op) = op {
            self.bump();
            let e = self.unary();
            let span = join(start, e.span);
            return Expr { kind: ExprKind::Unary { op, expr: Box::new(e) }, span };
        }
        self.postfix()
    }

    fn args(&mut self) -> Vec<Expr> {
        self.expect_sym("(");
        let mut args = Vec::new();
        self.skip_sep();
        while !self.eat_sym(")") {
            args.push(self.expr());
            self.skip_sep();
        }
        args
    }

    fn postfix(&mut self) -> Expr {
        let mut e = self.primary();
        loop {
            if self.is_sym("[") {
                self.bump();
                let first = self.expr();
                if self.eat_sym(":") {
                    let lo = self.expr();
                    self.expect_sym("]");
                    let span = join(e.span, self.prev_span());
                    e = Expr { kind: ExprKind::Slice { base: Box::new(e), hi: Box::new(first), lo: Box::new(lo) }, span };
                } else {
                    self.expect_sym("]");
                    let span = join(e.span, self.prev_span());
                    e = Expr { kind: ExprKind::Index { base: Box::new(e), index: Box::new(first) }, span };
                }
            } else if self.is_sym(".") && matches!(self.peek_at(1), Tok::Ident(_)) {
                self.bump();
                let field = self.name();
                if self.is_sym("(") {
                    let enum_name = match &e.kind {
                        ExprKind::Ident(n) => Ident { name: n.clone(), span: e.span },
                        _ => panic!("a constructor needs an enum name"),
                    };
                    if enum_name.name == "sync" {
                        let func = match field.name.as_str() {
                            "double_flop" => Builtin::SyncDoubleFlop,
                            "pulse" => Builtin::SyncPulse,
                            other => panic!("unknown sync primitive {other}"),
                        };
                        let args = self.args();
                        let span = join(e.span, self.prev_span());
                        e = Expr { kind: ExprKind::Call { func, args }, span };
                    } else {
                        let args = self.args();
                        let span = join(e.span, self.prev_span());
                        e = Expr { kind: ExprKind::EnumConstruct { enum_name, variant: field, args }, span };
                    }
                } else {
                    let span = join(e.span, field.span);
                    e = Expr { kind: ExprKind::Field { base: Box::new(e), field }, span };
                }
            } else {
                return e;
            }
        }
    }

    fn primary(&mut self) -> Expr {
        let start = self.span();
        match self.peek().clone() {
            Tok::Int(value, raw, _) => {
                self.bump();
                Expr { kind: ExprKind::Int { value, raw }, span: start }
            }
            Tok::Ident(name) => {
                if name == "true" || name == "false" {
                    self.bump();
                    return Expr { kind: ExprKind::Bool(name == "true"), span: start };
                }
                if name == "if" {
                    self.bump();
                    let cond = self.expr();
                    self.expect_sym("{");
                    self.skip_nl();
                    let then = self.expr();
                    self.skip_nl();
                    self.expect_sym("}");
                    self.expect_kw("else");
                    let els = if self.is_kw("if") {
                        self.primary()
                    } else {
                        self.expect_sym("{");
                        self.skip_nl();
                        let e = self.expr();
                        self.skip_nl();
                        self.expect_sym("}");
                        e
                    };
                    let span = join(start, self.prev_span());
                    return Expr {
                        kind: ExprKind::IfExpr { cond: Box::new(cond), then: Box::new(then), els: Box::new(els) },
                        span,
                    };
                }
                if name == "match" {
                    self.bump();
                    let scrutinee = self.expr();
                    self.expect_sym("{");
                    let mut arms = Vec::new();
                    self.skip_sep();
                    while !self.eat_sym("}") {
                        let mut patterns = vec![self.pattern()];
                        while self.eat_sym(",") {
                            patterns.push(self.pattern());
                        }
                        self.expect_sym("=>");
                        let value = self.expr();
                        arms.push(Arm { patterns, value });
                        self.skip_sep();
                    }
                    let span = join(start, self.prev_span());
                    return Expr { kind: ExprKind::Match { scrutinee: Box::new(scrutinee), arms }, span };
                }
                self.bump();
                if self.is_sym("(") {
                    let args = self.args();
                    let span = join(start, self.prev_span());
                    return match Builtin::from_name(name.as_str()) {
                        Some((func, _)) => Expr { kind: ExprKind::Call { func, args }, span },
                        None => Expr { kind: ExprKind::FnCall { name: ident(&name, start), args }, span },
                    };
                }
                Expr { kind: ExprKind::Ident(name), span: start }
            }
            Tok::Sym("(") => {
                self.bump();
                self.skip_nl();
                let e = self.expr();
                self.skip_nl();
                self.expect_sym(")");
                e
            }
            Tok::Sym("[") => {
                self.bump();
                let mut elems = Vec::new();
                self.skip_sep();
                while !self.eat_sym("]") {
                    elems.push(self.expr());
                    self.skip_sep();
                }
                Expr { kind: ExprKind::ArrayLit(elems), span: join(start, self.prev_span()) }
            }
            Tok::Sym("{") => {
                self.bump();
                self.skip_nl();
                if matches!(self.peek(), Tok::Ident(_)) && matches!(self.peek_at(1), Tok::Sym(":")) {
                    let mut inits = Vec::new();
                    while !self.eat_sym("}") {
                        let fs = self.span();
                        let fname = self.name();
                        self.expect_sym(":");
                        let value = self.expr();
                        inits.push(FieldInit { name: fname, value, span: join(fs, self.prev_span()) });
                        self.skip_sep();
                    }
                    return Expr { kind: ExprKind::BundleLit(inits), span: join(start, self.prev_span()) };
                }
                let first = self.expr();
                if self.eat_sym("{") {
                    let mut parts = Vec::new();
                    self.skip_sep();
                    while !self.eat_sym("}") {
                        parts.push(self.expr());
                        self.skip_sep();
                    }
                    self.skip_nl();
                    self.expect_sym("}");
                    let span = join(start, self.prev_span());
                    return Expr { kind: ExprKind::Replicate { count: Box::new(first), parts }, span };
                }
                let mut parts = vec![first];
                self.skip_sep();
                while !self.eat_sym("}") {
                    parts.push(self.expr());
                    self.skip_sep();
                }
                Expr { kind: ExprKind::Concat(parts), span: join(start, self.prev_span()) }
            }
            other => panic!("unexpected {:?} at {:?}", other, start),
        }
    }

    fn pattern(&mut self) -> Pattern {
        match self.peek().clone() {
            Tok::Ident(n) if n == "_" => {
                self.bump();
                Pattern::Wildcard
            }
            Tok::Ident(n) if n == "true" || n == "false" => {
                self.bump();
                Pattern::Bool(n == "true")
            }
            Tok::Int(value, raw, mask) => {
                self.bump();
                match mask {
                    Some((mask, width)) => Pattern::IntMask { value, mask, width, raw },
                    None => Pattern::Int { value, raw },
                }
            }
            Tok::Ident(_) => {
                let enum_name = self.name();
                self.expect_sym(".");
                let variant = self.name();
                let mut bindings = Vec::new();
                if self.eat_sym("(") {
                    self.skip_sep();
                    while !self.eat_sym(")") {
                        bindings.push(self.name());
                        self.skip_sep();
                    }
                }
                Pattern::Variant { enum_name, variant, bindings }
            }
            other => panic!("unexpected pattern {:?}", other),
        }
    }
}

fn parse(src: &str) -> File {
    let mut p = P { toks: lex(src), pos: 0 };
    p.file()
}

fn check_one(src: &str) -> Result<(), Vec<Diag>> {
    check(&[parse(src)])
}

fn errs(src: &str) -> Vec<Diag> {
    check_one(src).expect_err("expected checker errors")
}

fn first_err(src: &str, code: &str) -> Diag {
    let diags = errs(src);
    assert_eq!(diags[0].code, Some(code), "expected {code}, got {:?}: {}", diags[0].code, diags[0].msg);
    diags.into_iter().next().unwrap()
}

fn first_err_multi(files: &[File], code: &str) -> Diag {
    let diags = check(files).expect_err("expected checker errors");
    assert_eq!(diags[0].code, Some(code), "expected {code}, got {:?}: {}", diags[0].code, diags[0].msg);
    diags.into_iter().next().unwrap()
}

fn errs_multi(files: &[File]) -> Vec<Diag> {
    check(files).expect_err("expected checker errors")
}

fn any_code(src: &str, code: &str) -> bool {
    errs(src).iter().any(|d| d.code == Some(code))
}

fn diags_for(src: &str) -> Vec<Diag> {
    check(&[parse(src)]).expect_err("expected checker errors")
}

fn eval_src(src: &str) -> Result<ConstVal, Diag> {
    let file = parse(src);
    let TopItem::Const(c) = &file.items[0] else {
        panic!("expected a const item");
    };
    let env: Env = Vec::new();
    eval(&c.value, &env)
}


const COUNTER: &str = "module Counter(WIDTH: int = 8) {
  clock clk
  reset rst
  out count: bits[WIDTH]
  reg value: bits[WIDTH] = 0
  on rise(clk) {
    value <- value +% 1
  }
  count = value
}
";

const FA2: &str = "module FA {\n  in a: bit\n  in b: bit\n  out s: bit\n  s = a ^ b\n}\n";

const OP: &str = "enum Op { Add(a: bits[8], b: bits[8]), Sub(a: bits[8], b: bits[8]), Big(x: bits[16]), Nop }\n";

#[test]
fn clean_module_passes() {
    check_one(COUNTER).expect("counter is clean");
}

#[test]
fn clog2_in_a_width_position_is_clean() {
    check_one("module M {\n  out o: bits[clog2(9)]\n  o = 0\n}\n")
        .expect("clog2 in a width is clean");
}

#[test]
fn clog2_of_a_module_const_is_clean() {
    check_one("module M {\n  const DEPTH: int = 16\n  out ptr: bits[clog2(DEPTH)]\n  ptr = 0\n}\n")
        .expect("clog2 of a const is clean");
}

#[test]
fn same_name_module_in_different_files_is_not_an_error_until_referenced() {
    let files = [
        parse("module A {\n  out y: bit\n  y = 0\n}\n"),
        parse("module A {\n  out z: bit\n  z = 0\n}\n"),
    ];
    check(&files)
        .expect("two files may each declare `A` — no ambiguity until something references it");
}

#[test]
fn ambiguous_bare_module_reference_is_e0110() {
    let a = parse("module Fifo {\n  out y: bit\n  y = 0\n}\n");
    let b = parse("module Fifo {\n  out z: bit\n  z = 0\n}\n");
    let user = parse("module M {\n  let u = Fifo() { }\n}\n");
    let d = first_err_multi(&[user, a, b], "E0110");
    assert!(d.help.unwrap().contains("qualify"));
}

#[test]
fn qualified_module_reference_resolves_unambiguously() {
    let a = parse("module Fifo {\n  out y: bit\n  y = 0\n}\n");
    let b = parse("module Fifo {\n  out z: bit\n  z = 0\n}\n");
    let mut user = parse("module M {\n  let u = Fifo() { }\n}\n");
    if let mimz_core::ast::TopItem::Module(m) = &mut user.items[0] {
        if let mimz_core::ast::ModuleItem::Inst(inst) = &mut m.items[0] {
            inst.module.path.push(mimz_core::ast::Ident {
                name: "b".into(),
                span: inst.module.span,
            });
            inst.module.resolved_file = Some(2);
        }
    }
    check(&[user, a, b]).expect("qualified reference resolves without ambiguity");
}

#[test]
fn qualified_reference_actually_resolves_via_a_real_import_path() {
    let a = parse("module Fifo {\n  out y: bit\n  y = 0\n}\n");
    let b = parse("module Fifo {\n  out z: bit\n  z = 0\n}\n");
    let mut user = parse("import b\n\nmodule M {\n  let u = b.Fifo() { }\n}\n");
    assert_eq!(user.imports.len(), 1, "sanity: `import b` parsed");
    user.imports[0].resolved_file = Some(2);
    check(&[user, a, b]).expect(
        "qualified reference must resolve via the real import match, not a hand-poked Cell",
    );
}

#[test]
fn qualified_reference_with_unmatched_path_is_e0111() {
    let a = parse("module Fifo {\n  out y: bit\n  y = 0\n}\n");
    let mut user = parse("module M {\n  let u = Fifo() { }\n}\n");
    if let mimz_core::ast::TopItem::Module(m) = &mut user.items[0] {
        if let mimz_core::ast::ModuleItem::Inst(inst) = &mut m.items[0] {
            inst.module.path.push(mimz_core::ast::Ident {
                name: "nope".into(),
                span: inst.module.span,
            });
        }
    }
    first_err_multi(&[user, a], "E0111");
}

#[test]
fn qualified_reference_to_a_file_that_doesnt_declare_the_name_is_e0111() {
    let right = parse("module Fifo {\n  out y: bit\n  y = 0\n}\n");
    let wrongpkg = parse("module NotFifo {\n  out z: bit\n  z = 0\n}\n");
    let mut user = parse("import wrongpkg\n\nmodule M {\n  let u = wrongpkg.Fifo() { }\n}\n");
    assert_eq!(user.imports.len(), 1, "sanity: `import wrongpkg` parsed");
    user.imports[0].resolved_file = Some(2);
    first_err_multi(&[user, right, wrongpkg], "E0111");
}

#[test]
fn same_name_module_in_the_same_file_is_still_e0001() {
    let d = first_err("module A {\n}\nmodule A {\n}\n", "E0001");
    assert!(d.msg.contains("more than once") || d.msg.contains("twice"));
}

#[test]
fn duplicate_signal_in_module_is_e0003() {
    let d = first_err(
        "module M {\n  in x: bit\n  out y: bit\n  wire x: bit = y\n  y = x\n}\n",
        "E0003",
    );
    assert!(d.msg.contains("declared twice"));
}

#[test]
fn duplicate_file_const_is_e0004() {
    first_err(
        "const N: int = 1\nconst N: int = 2\nmodule M {\n}\n",
        "E0004",
    );
}

#[test]
fn unknown_name_is_e0101_with_teaching_help() {
    let d = first_err("module M {\n  out y: bit\n  y = nope\n}\n", "E0101");
    assert!(d.msg.contains("nope"));
    assert!(d.help.unwrap().contains("spelling"));
}

#[test]
fn array_param_length_referencing_an_unbound_name_is_e0101() {
    let src = "fn f(vals: bits[8][unbound_thing]) -> bits[8] {\n  vals[0]\n}\nmodule M {\n  out o: bits[8]\n  o = f([1])\n}\n";
    assert!(any_code(src, "E0101"));
}

#[test]
fn unknown_module_in_inst_is_e0102_and_mentions_import() {
    let d = first_err(
        "module M {\n  in a: bit\n  let u = Ghost() { a: a }\n}\n",
        "E0102",
    );
    assert!(d.help.unwrap().contains("import"));
}

#[test]
fn unknown_enum_variant_is_e0103_and_lists_variants() {
    let src = "module M {\n  out y: bit\n  enum S { A, B }\n  reg s: S = S.A\n  clock c\n  reset r\n  y = s == S.Z\n}\n";
    let d = first_err(src, "E0103");
    assert!(d.help.unwrap().contains("A, B"));
}

#[test]
fn reading_an_input_of_an_instance_is_e0104() {
    let src = "module Child {\n  in a: bit\n  out z: bit\n  z = a\n}\nmodule M {\n  in x: bit\n  out y: bit\n  let c = Child() { a: x }\n  y = c.a\n}\n";
    let d = first_err(src, "E0104");
    assert!(d.help.unwrap().contains("input"));
}

#[test]
fn unknown_param_in_inst_is_e0106_and_lists_params() {
    let src = "module Child(W: int = 1) {\n  out z: bit\n  z = 0\n}\nmodule M {\n  out y: bit\n  let c = Child(DEPTH: 4)\n  y = c.z\n}\n";
    let d = first_err(src, "E0106");
    assert!(d.help.unwrap().contains('W'));
}

#[test]
fn connecting_an_output_is_e0107() {
    let src = "module Child {\n  out z: bit\n  z = 1\n}\nmodule M {\n  in x: bit\n  out y: bit\n  let c = Child() { z: x }\n  y = c.z\n}\n";
    let d = first_err(src, "E0107");
    assert!(d.help.unwrap().contains('.'));
}

#[test]
fn assigning_an_input_is_e0108() {
    let d = first_err("module M {\n  in x: bit\n  x = 1\n}\n", "E0108");
    assert!(d.msg.contains("input"));
}

#[test]
fn on_rise_of_a_non_clock_is_e0109() {
    let src = "module M {\n  clock clk\n  reset rst\n  in x: bit\n  reg v: bit = 0\n  on rise(x) {\n    v <- 1\n  }\n}\n";
    first_err(src, "E0109");
}

#[test]
fn const_arithmetic_and_repeat_bounds_evaluate() {
    let src = "const N: int = 2 + 2\nmodule M {\n  out y: bits[N]\n  repeat i: 0..N {\n    y[i] = 0\n  }\n}\n";
    check_one(src).expect("const-driven repeat bounds are fine");
}

#[test]
fn non_constant_repeat_bound_is_e0201() {
    let src =
        "module M {\n  in x: bits[4]\n  out y: bits[4]\n  repeat i: 0..x {\n    y[i] = 0\n  }\n}\n";
    let d = first_err(src, "E0201");
    assert!(d.msg.contains("not a compile-time constant"));
}

#[test]
fn foreach_elements_form_on_scalar_is_e0417() {
    let src =
        "module M {\n  in a: bits[8]\n  out o: bits[8]\n  foreach x in a {\n    o = x\n  }\n}\n";
    let d = first_err(src, "E0417");
    assert!(d.msg.contains("not an array or mem type"));
}

#[test]
fn foreach_range_form_checks_clean() {
    let src = "module M {\n  out y: bits[4]\n  foreach i in 0..4 {\n    y[i] = 0\n  }\n}\n";
    check_one(src).expect("foreach range form over a valid module must check clean");
}

#[test]
fn foreach_elements_form_checks_clean_over_mem() {
    let src = "module M {\n  clock clk\n  reset rst\n  mem values: bits[8][8] = 0\n  reg acc: bits[11] = 0\n  on rise(clk) {\n    foreach v in values {\n      acc <- acc\n    }\n  }\n}\n";
    check_one(src).expect("foreach element form over a declared mem must check clean");
}

#[test]
fn foreach_elements_form_variable_resolves_inside_on_block() {
    let src = "module M {\n  clock clk\n  reset rst\n  mem values: bits[8][8] = 0\n  reg acc: bits[8] = 0\n  on rise(clk) {\n    foreach v in values {\n      acc <- v\n    }\n  }\n}\n";
    check_one(src).expect("`v` must resolve inside the foreach body via substitution");
}

#[test]
fn foreach_elements_form_at_module_level_checks_clean() {
    let src = "module M {\n  mem values: bits[8][1] = 0\n  out sum: bits[8]\n  foreach v in values {\n    sum = v\n  }\n}\n";
    check_one(src).expect("module-item-level foreach elements form over a mem must check clean");
}

#[test]
fn foreach_elements_form_in_fn_body_resolves_via_own_param() {
    let src = "fn find(vals: bits[8][4]) -> bits[8] {\n  foreach v in vals {\n    if v == 0xFF { return v }\n  }\n  0\n}\nmodule M {\n  in a: bits[8]\n  in b: bits[8]\n  in c: bits[8]\n  in d: bits[8]\n  out o: bits[8]\n  o = find([a, b, c, d])\n}\n";
    check_one(src)
        .expect("fn-body foreach elements form over the fn's own array param must check clean");
}

#[test]
fn const_using_a_later_const_is_e0201() {
    first_err(
        "const A: int = B\nconst B: int = 1\nmodule M {\n}\n",
        "E0201",
    );
}

#[test]
fn const_overflow_is_e0202() {
    let src = "const HUGE: int = 170141183460469231731687303715884105727 + 1\nmodule M {\n}\n";
    first_err(src, "E0202");
}

#[test]
fn reg_without_reset_declaration_is_e0301() {
    let src = "module M {\n  clock clk\n  reg v: bit = 0\n  on rise(clk) {\n    v <- 1\n  }\n}\n";
    let d = first_err(src, "E0301");
    assert!(d.help.unwrap().contains("reset"));
}

#[test]
fn replication_width_is_count_times_inner() {
    check_one("module M {\n  in a: bits[4]\n  out y: bits[8]\n  y = {2{a}}\n}\n")
        .expect("{2{bits[4]}} is bits[8]");
    check_one("module M {\n  in a: bits[4]\n  out z: bits[12]\n  z = {3{a}}\n}\n")
        .expect("{3{bits[4]}} is bits[12]");
}

#[test]
fn min_max_take_two_same_width_operands() {
    check_one(
        "module M {\n  in a: bits[8]\n  in b: bits[8]\n  out y: bits[8]\n  y = max(a, b)\n}\n",
    )
    .expect("max of two bits[8] is bits[8]");
}

#[test]
fn abs_of_signed_grows_one_bit() {
    check_one("module M {\n  in a: signed[4]\n  out y: signed[5]\n  y = abs(a)\n}\n")
        .expect("abs grows to signed[N+1]");
}

#[test]
fn nand_reduces_to_a_bit() {
    check_one("module M {\n  in a: bits[4]\n  out y: bit\n  y = nand(a)\n}\n")
        .expect("nand of bits[4] is a bit");
}

#[test]
fn max_with_a_literal_operand_adapts() {
    check_one("module M {\n  in a: bits[8]\n  out y: bits[8]\n  y = max(a, 0)\n}\n")
        .expect("max(x, 0) adapts the literal to bits[8]");
}

#[test]
fn nand_of_a_bare_bit_is_a_bit() {
    check_one("module M {\n  in a: bit\n  out y: bit\n  y = nand(a)\n}\n")
        .expect("nand of a bare bit is a bit");
}

#[test]
fn nested_abs_of_min_type_checks() {
    check_one(
        "module M {\n  in a: signed[4]\n  in b: signed[4]\n  out y: signed[5]\n  y = abs(min(a, b))\n}\n",
    )
    .expect("abs(min(a, b)) composes the type rules");
}

#[test]
fn min_of_two_abs_type_checks() {
    check_one(
        "module M {\n  in x: signed[4]\n  in y: signed[4]\n  out z: signed[5]\n  z = min(abs(x), abs(y))\n}\n",
    )
    .expect("min(abs(x), abs(y)) composes the type rules");
}

#[test]
fn abs_grows_at_the_width_boundary() {
    check_one("module M {\n  in a: signed[127]\n  out y: signed[128]\n  y = abs(a)\n}\n")
        .expect("abs(signed[127]) is signed[128]");
}

#[test]
fn adder_growth_passes() {
    let src = "module Adder(WIDTH: int = 8) {\n  in a: bits[WIDTH]\n  in b: bits[WIDTH]\n  out sum: bits[WIDTH + 1]\n  sum = a + b\n}\n";
    check_one(src).expect("lossless + grows into the wider target");
}

#[test]
fn alu_match_arms_pass() {
    let src = "module Alu {\n  in a: bits[8]\n  in b: bits[8]\n  in op: bits[2]\n  out y: bits[8]\n  y = match op {\n    0b00 => a +% b\n    0b01 => a -% b\n    0b10 => a & b\n    _ => a | b\n  }\n}\n";
    check_one(src).expect("sized match arms against a sized target");
}

#[test]
fn enum_state_machine_passes() {
    let src = "module Fsm {\n  clock clk\n  reset rst\n  enum S { A, B }\n  reg state: S = S.A\n  reg timer: bits[8] = 0\n  out o: bit\n  on rise(clk) {\n    state <- match state {\n      S.A => S.B\n      S.B => S.A\n    }\n    timer <- match state {\n      S.A => 50\n      S.B => 0\n    }\n  }\n  o = state == S.B\n}\n";
    check_one(src).expect("enum regs, variant arms, literal arms that fit");
}

#[test]
fn register_file_passes() {
    let src = "module RF {\n  clock clk\n  in we: bit\n  in waddr: bits[2]\n  in wdata: bits[8]\n  in raddr: bits[2]\n  out rdata: bits[8]\n  mem m: bits[8][4] = 0\n  on rise(clk) {\n    if we {\n      m[waddr] <- wdata\n    }\n  }\n  rdata = m[raddr]\n}\n";
    check_one(src).expect("a register file: indexed write + read, element-typed");
}

#[test]
fn a_memory_inside_repeat_is_e0303() {
    let src = "module M {\n  repeat i: 0..2 {\n    mem m: bits[8][4] = 0\n  }\n}\n";
    first_err(src, "E0303");
}

#[test]
fn extend_of_a_bit_into_bitwise_passes() {
    let src = "module Sr(WIDTH: int = 8) {\n  clock clk\n  reset rst\n  in din: bit\n  out dout: bits[WIDTH]\n  reg sr: bits[WIDTH] = 0\n  on rise(clk) {\n    sr <- (sr << 1) | extend(din, WIDTH)\n  }\n  dout = sr\n}\n";
    check_one(src).expect("the shift-register shape, widths made explicit");
}

#[test]
fn comparison_with_a_const_passes() {
    let src = "const LIMIT: int = 50000000\nmodule Blink {\n  clock clk\n  reset rst\n  out led: bit\n  reg cnt: bits[26] = 0\n  reg state: bit = 0\n  on rise(clk) {\n    if cnt == LIMIT {\n      cnt <- 0\n      state <- state ^ 1\n    } else {\n      cnt <- cnt +% 1\n    }\n  }\n  led = state\n}\n";
    check_one(src).expect("consts adapt to the compared signal's width");
}

#[test]
fn forward_reference_to_unknown_output_field_is_e0104() {
    let src = "module Inv {\n  in d: bit\n  out q: bit\n  q = !d\n}\nmodule M {\n  out y: bit\n  let i1 = Inv() { d: i2.zzz }\n  let i2 = Inv() { d: 0 }\n  y = i1.q\n}\n";
    let d = first_err(src, "E0104");
    assert!(d.msg.contains("zzz"));
}

#[test]
fn disjoint_per_bit_drives_via_repeat_pass() {
    let src = "module M {\n  in data: bits[8]\n  out y: bits[8]\n  repeat i: 0..8 {\n    y[i] = data[i]\n  }\n}\n";
    check_one(src).expect("disjoint constant-index drives are one driver per bit");
}

#[test]
fn feedback_through_a_register_is_not_a_cycle() {
    let src = "module M {\n  clock clk\n  reset rst\n  out y: bit\n  reg v: bit = 0\n  wire next: bit = !v\n  on rise(clk) {\n    v <- next\n  }\n  y = v\n}\n";
    check_one(src).expect("a loop broken by a reg is the normal shape of hardware");
}

#[test]
fn repeat_instance_array_ripple_carry_is_not_a_cycle() {
    let src = "module FA {\n  in a: bit\n  in cin: bit\n  out s: bit\n  out cout: bit\n  s = a ^ cin\n  cout = a & cin\n}\nmodule M {\n  in x: bits[4]\n  out y: bits[4]\n  out c: bit\n  wire seed: bit = 0\n  repeat i: 0..4 {\n    let fa[i] = FA() { a: x[i], cin: if i == 0 { seed } else { fa[i-1].cout } }\n    y[i] = fa[i].s\n  }\n  c = fa[3].cout\n}\n";
    check_one(src).expect("fa[1] -> fa[0] is a chain, not a loop — per-index nodes");
}

#[test]
fn defaultless_module_with_param_indexed_drives_is_not_e0501() {
    let src = "module C(W: int) {\n  in a: bits[W]\n  out y: bits[W]\n  y[W - 1] = a[0]\n  y[0] = a[1]\n}\nmodule M {\n  in x: bits[2]\n  out y: bits[2]\n  let c = C(W: 2) { a: x }\n  y = c.y\n}\n";
    check_one(src).expect("unevaluable extents never conflict (no false positives)");
}

#[test]
fn enum_match_covering_every_variant_needs_no_wildcard() {
    let src = "module M {\n  clock clk\n  reset rst\n  in go: bit\n  out y: bit\n  enum S { A, B, C }\n  reg s: S = S.A\n  on rise(clk) {\n    if go {\n      s <- S.B\n    }\n  }\n  y = match s {\n    S.A => 1\n    S.B => 0\n    S.C => 1\n  }\n}\n";
    check_one(src).expect("full variant coverage is exhaustive without `_` (v0.2.3 ruling)");
}

#[test]
fn wildcard_after_full_enum_coverage_is_allowed() {
    let src = "module M {\n  clock clk\n  reset rst\n  in go: bit\n  out y: bit\n  enum S { A, B }\n  reg s: S = S.A\n  on rise(clk) {\n    if go {\n      s <- S.B\n    }\n  }\n  y = match s {\n    S.A => 1\n    S.B => 0\n    _ => 0\n  }\n}\n";
    check_one(src).expect("defensive `_` after full coverage is legal");
}

#[test]
fn bits2_match_covering_all_four_values_passes() {
    let src = "module M {\n  in sel: bits[2]\n  in a: bit\n  in b: bit\n  out y: bit\n  y = match sel {\n    0 => a\n    1 => b\n    2 => a\n    3 => b\n  }\n}\n";
    check_one(src).expect("all 2^2 values covered — exhaustive without `_`");
}

#[test]
fn multi_pattern_arms_count_toward_coverage() {
    let src = "module M {\n  in sel: bits[2]\n  in a: bit\n  in b: bit\n  out y: bit\n  y = match sel {\n    0, 1 => a\n    2, 3 => b\n  }\n}\n";
    check_one(src).expect("`0, 1 =>` covers two values");
}

#[test]
fn unconnected_input_is_e0302_naming_it() {
    let src = format!(
        "{FA2}module M {{\n  in x: bit\n  out y: bit\n  let u = FA() {{ a: x }}\n  y = u.s\n}}\n"
    );
    let d = first_err(&src, "E0302");
    assert!(d.msg.contains('b'), "names the missing input: {}", d.msg);
}

#[test]
fn several_unconnected_inputs_are_listed_in_one_error() {
    let src = format!("{FA2}module M {{\n  out y: bit\n  let u = FA() {{}}\n  y = u.s\n}}\n");
    let d = first_err(&src, "E0302");
    assert!(d.msg.contains('a') && d.msg.contains('b'));
}

#[test]
fn clock_and_reset_ports_may_be_omitted() {
    let src = "module Tick {\n  clock clk\n  reset rst\n  out q: bit\n  reg v: bit = 0\n  on rise(clk) {\n    v <- !v\n  }\n  q = v\n}\nmodule M {\n  out y: bit\n  let u = Tick() {}\n  y = u.q\n}\n";
    check_one(src).expect("clock/reset connect implicitly by name — never E0302");
}

#[test]
fn connecting_an_input_twice_is_e0302() {
    let src = format!(
        "{FA2}module M {{\n  in x: bit\n  out y: bit\n  let u = FA() {{ a: x, a: x, b: x }}\n  y = u.s\n}}\n"
    );
    let d = first_err(&src, "E0302");
    assert!(d.msg.contains("twice"));
}

#[test]
fn two_clocks_with_separate_logic_pass() {
    let src = "module M {\n  clock cka\n  clock ckb\n  reset rst\n  in a: bit\n  out ya: bit\n  out yb: bit\n  reg ra: bit = 0\n  reg rb: bit = 0\n  on rise(cka) {\n    ra <- a\n  }\n  on rise(ckb) {\n    rb <- a\n  }\n  ya = ra\n  yb = rb\n}\n";
    check_one(src).expect("independent domains never touch — clean");
}

#[test]
fn reading_another_domains_reg_is_e0701() {
    let src = "module M {\n  clock cka\n  clock ckb\n  reset rst\n  in a: bit\n  out ya: bit\n  out yb: bit\n  reg ra: bit = 0\n  reg rb: bit = 0\n  on rise(cka) {\n    ra <- a\n  }\n  on rise(ckb) {\n    rb <- ra\n  }\n  ya = ra\n  yb = rb\n}\n";
    let d = first_err(src, "E0701");
    assert!(d.msg.contains("cka") && d.msg.contains("ckb"));
    assert!(d.help.unwrap().contains("sync"));
}

#[test]
fn cross_domain_through_a_wire_is_e0701() {
    let src = "module M {\n  clock cka\n  clock ckb\n  reset rst\n  in a: bit\n  out ya: bit\n  out yb: bit\n  reg ra: bit = 0\n  reg rb: bit = 0\n  wire w: bit = !ra\n  on rise(cka) {\n    ra <- a\n  }\n  on rise(ckb) {\n    rb <- w\n  }\n  ya = ra\n  yb = rb\n}\n";
    let d = first_err(src, "E0701");
    assert!(
        d.msg.contains("cka"),
        "the wire carries cka's domain: {}",
        d.msg
    );
}

#[test]
fn a_wire_mixing_two_domains_is_e0701() {
    let src = "module M {\n  clock cka\n  clock ckb\n  reset rst\n  in a: bit\n  out y: bit\n  reg ra: bit = 0\n  reg rb: bit = 0\n  wire w: bit = ra ^ rb\n  on rise(cka) {\n    ra <- a\n  }\n  on rise(ckb) {\n    rb <- a\n  }\n  y = w\n}\n";
    let d = first_err(src, "E0701");
    assert!(d.msg.contains("mixes"));
}

#[test]
fn same_domain_logic_under_two_declared_clocks_passes() {
    let src = "module M {\n  clock cka\n  clock ckb\n  reset rst\n  in a: bit\n  out y: bit\n  reg r1: bit = 0\n  reg r2: bit = 0\n  wire w: bit = r1 ^ r2\n  on rise(cka) {\n    r1 <- a\n    r2 <- w\n  }\n  y = w\n}\n";
    check_one(src).expect("everything lives on cka — the unused ckb changes nothing");
}

#[test]
fn wire_inside_repeat_is_e0303() {
    let src = "module M {\n  out y: bits[4]\n  repeat i: 0..4 {\n    wire w: bit = 0\n    y[i] = w\n  }\n}\n";
    assert!(
        any_code(src, "E0303"),
        "a wire declared inside repeat is E0303"
    );
}

#[test]
fn reg_inside_repeat_is_e0303() {
    let src = "module M {\n  clock clk\n  reset rst\n  out y: bits[4]\n  repeat i: 0..4 {\n    reg r: bit = 0\n    y[i] = 0\n  }\n}\n";
    assert!(
        any_code(src, "E0303"),
        "a reg declared inside repeat is E0303"
    );
}

#[test]
fn on_block_inside_repeat_is_e0303() {
    let src = "module M {\n  clock clk\n  reset rst\n  out y: bits[4]\n  reg r: bit = 0\n  repeat i: 0..4 {\n    on rise(clk) {\n      r <- 1\n    }\n    y[i] = r\n  }\n}\n";
    assert!(
        any_code(src, "E0303"),
        "an `on` block inside repeat is E0303"
    );
}

#[test]
fn const_inside_repeat_is_e0303() {
    let src = "module M {\n  out y: bits[4]\n  repeat i: 0..4 {\n    const C: int = 1\n    y[i] = 0\n  }\n}\n";
    let d = errs(src)
        .into_iter()
        .find(|d| d.code == Some("E0303"))
        .expect("a const inside repeat is E0303");
    assert!(d.help.unwrap().contains("Declare the signal once outside"));
}

#[test]
fn repeat_with_only_drives_and_nested_repeat_is_clean() {
    let src = "module M {\n  out y: bits[4]\n  repeat i: 0..2 {\n    repeat j: 0..2 {\n      y[i * 2 + j] = 0\n    }\n  }\n}\n";
    check_one(src).expect("a repeat that only generates hardware is clean");
}

#[test]
fn return_width_match_is_accepted() {
    let src = "fn f(a: bits[8]) -> bits[8] {\n  if a[0] == 1 { return a }\n  a\n}\nmodule M {\n  in a: bits[8]\n  out o: bits[8]\n  o = f(a)\n}\n";
    check_one(src).expect("return type matches declared return type");
}

#[test]
fn mac_function_type_checks_clean() {
    check_one(
        "fn mac(a: bits[8], b: bits[8]) -> bits[8] {\n  let prod = a *% b\n  prod\n}\nmodule M {\n  in x: bits[8]\n  in y: bits[8]\n  out z: bits[8]\n  z = mac(x, y)\n}\n",
    )
    .expect("mac body and call-site widths are clean, return bits[8] propagates");
}

#[test]
fn fn_with_const_local_compiles_clean() {
    check_one(
        "fn add_offset(a: bits[8]) -> bits[8] {\n  let n = 5\n  a +% n\n}\nmodule M {\n  in a: bits[8]\n  out result: bits[8]\n  result = add_offset(a)\n}\n",
    )
    .expect("fn with a bare-literal local compiles clean");
}

#[test]
fn unbound_name_inside_fn_return_is_rejected() {
    let src = "fn f(a: bits[8]) -> bits[8] {\n  if a[0] == 1 { return unbound_thing }\n  a\n}\nmodule M {\n  in a: bits[8]\n  out o: bits[8]\n  o = f(a)\n}\n";
    assert!(
        any_code(src, "E0101"),
        "an unbound name inside a `return` expression is E0101"
    );
}

#[test]
fn fn_if_branch_names_are_resolved() {
    let src = "fn f(a: bits[8]) -> bits[8] {\n  let x = a\n  if a[0] == 1 { return x }\n  x\n}\nmodule M {\n  in a: bits[8]\n  out o: bits[8]\n  o = f(a)\n}\n";
    check_one(src).expect("let-bound name is visible inside the if-branch return and tail");
}

#[test]
fn let_bound_only_inside_an_if_branch_does_not_leak_outside() {
    let src = "fn f(a: bit) -> bits[8] {\n  if a == 1 { let y = 5 }\n  y\n}\nmodule M {\n  in a: bit\n  out o: bits[8]\n  o = f(a)\n}\n";
    assert!(
        any_code(src, "E0101"),
        "a let bound only inside an if-branch must not be visible after the if"
    );
}

#[test]
fn let_bound_only_inside_one_if_branch_is_not_visible_in_the_sibling_branch() {
    let src = "fn f(a: bit) -> bits[8] {\n  if a == 1 { let y = 5 } else { return y }\n  0\n}\nmodule M {\n  in a: bit\n  out o: bits[8]\n  o = f(a)\n}\n";
    assert!(
        any_code(src, "E0101"),
        "a let bound in the then-branch must not be visible in the else-branch"
    );
}

#[test]
fn let_bound_only_inside_an_if_branch_is_not_visible_to_width_checking_outside_it() {
    let src = "fn f(a: bit) -> bits[8] {\n  if a == 1 { let y = 5 }\n  y\n}\nmodule M {\n  in a: bit\n  out o: bits[8]\n  o = f(a)\n}\n";
    assert!(
        check_one(src).is_err(),
        "a branch-local let referenced outside its if must not compile clean"
    );
}

#[test]
fn fn_loop_variable_resolves_inside_its_own_body() {
    let src = "fn find(vals: bits[8][4]) -> signed[4] {\n  loop i: 0..4 {\n    if vals[i] == 0xFF { return i }\n  }\n  0 - 1\n}\nmodule M {\n  in a: bits[8]\n  in b: bits[8]\n  in c: bits[8]\n  in d: bits[8]\n  out o: signed[4]\n  o = find([a, b, c, d])\n}\n";
    check_one(src).expect("loop variable `i` must resolve inside the loop body");
}

#[test]
fn seq_loop_variable_resolves_inside_on_block() {
    let src = "module M {\n  clock clk\n  reset rst\n  in vals0: bits[8]\n  reg acc: bits[8] = 0\n  on rise(clk) {\n    loop i: 0..1 {\n      acc <- vals0 +% i\n    }\n  }\n}\n";
    check_one(src).expect("loop variable must resolve inside an on-block loop body");
}

#[test]
fn fn_loop_variable_does_not_leak_outside_the_loop() {
    let src = "fn find(vals: bits[8][4]) -> signed[4] {\n  loop i: 0..4 {\n    if vals[i] == 0xFF { return i }\n  }\n  i\n}\nmodule M {\n  in a: bits[8]\n  in b: bits[8]\n  in c: bits[8]\n  in d: bits[8]\n  out o: signed[4]\n  o = find([a, b, c, d])\n}\n";
    assert!(
        any_code(src, "E0101"),
        "`i` is only bound inside the loop — it must not leak into the tail"
    );
}

#[test]
fn seq_loop_variable_does_not_leak_outside_the_loop() {
    let src = "module M {\n  clock clk\n  reset rst\n  in vals0: bits[8]\n  reg acc: bits[8] = 0\n  on rise(clk) {\n    loop i: 0..1 {\n      acc <- vals0\n    }\n    acc <- i\n  }\n}\n";
    assert!(
        any_code(src, "E0101"),
        "`i` is only bound inside the loop — it must not leak past it in the on-block"
    );
}

#[test]
fn fn_loop_local_let_does_not_leak_outside_the_loop() {
    let src = "fn f(a: bits[8]) -> bits[8] {\n  loop i: 0..1 {\n    let x = a\n  }\n  x\n}\nmodule M {\n  in a: bits[8]\n  out o: bits[8]\n  o = f(a)\n}\n";
    assert!(
        any_code(src, "E0101"),
        "`x` is only bound inside the loop body — it must not leak past it"
    );
}

#[test]
fn non_constant_seq_loop_bound_is_e0201() {
    let src = "module M {\n  clock clk\n  reset rst\n  in x: bits[4]\n  reg acc: bit = 0\n  on rise(clk) {\n    loop i: 0..x {\n      acc <- 0\n    }\n  }\n}\n";
    let d = first_err(src, "E0201");
    assert!(d.msg.contains("not a compile-time constant"));
}

#[test]
fn non_constant_fn_loop_bound_is_e0201() {
    let src = "fn f(n: bits[4]) -> bit {\n  loop i: 0..n {\n    let x = i\n  }\n  0\n}\nmodule M {\n  in n: bits[4]\n  out o: bit\n  o = f(n)\n}\n";
    let d = first_err(src, "E0201");
    assert!(d.msg.contains("not a compile-time constant"));
}

#[test]
fn tagged_enum_unknown_payload_type_is_e0103() {
    let src = "module M {\n  enum Packet { Read(addr: bogustype) }\n  out y: bit\n  y = 0\n}\n";
    let d = first_err(src, "E0103");
    assert!(
        d.msg.contains("bogustype"),
        "error names the unknown type: {}",
        d.msg
    );
}

#[test]
fn tagged_enum_toplevel_unknown_payload_type_is_e0103() {
    let src = "enum Packet { Read(addr: bogustype) }\nmodule M {\n  out y: bit\n  y = 0\n}\n";
    let d = first_err(src, "E0103");
    assert!(
        d.msg.contains("bogustype"),
        "error names the unknown type: {}",
        d.msg
    );
}

#[test]
fn tagged_pattern_arity_mismatch_is_e0806() {
    let src = "enum Packet { Read(addr: bits[8]) }\nmodule M {\n  in x: Packet\n  out y: bit\n  y = match x {\n    Packet.Read(a, b) => 0\n    _ => 0\n  }\n}\n";
    let d = first_err(src, "E0806");
    assert!(d.msg.contains("Read"), "error names the variant: {}", d.msg);
}

#[test]
fn tag_only_pattern_with_bindings_is_e0806() {
    let src = "module M {\n  enum Foo { A, B }\n  in s: Foo\n  out y: bit\n  y = match s {\n    Foo.A(x) => 0\n    Foo.B => 1\n  }\n}\n";
    let d = first_err(src, "E0806");
    assert!(d.msg.contains("A"), "error names the variant: {}", d.msg);
}

#[test]
fn valid_tagged_pattern_compiles_clean() {
    let src = "enum Packet { Read(addr: bits[8]) }\nmodule M {\n  in x: Packet\n  out y: bits[8]\n  y = match x {\n    Packet.Read(a) => a\n    _ => 0\n  }\n}\n";
    check_one(src).expect("valid tagged pattern with correct arity compiles clean");
}

#[test]
fn enum_construct_unknown_enum_name() {
    first_err(
        "module M {\n  out y: bit\n  y = NoSuchEnum.Variant()\n}\n",
        "E0101",
    );
}

#[test]
fn enum_construct_unknown_variant_name() {
    let src = "enum State { Idle, Running }\n\
               module M {\n  out y: State\n  y = State.NoSuchVariant()\n}\n";
    first_err(src, "E0103");
}

#[test]
fn enum_construct_arity_mismatch_is_e0806() {
    let src = "enum Packet { Ctrl(k: bits[4]) }\n\
               module M {\n  in k: bits[4]\n  out y: Packet\n  y = Packet.Ctrl(k, k)\n}\n";
    first_err(src, "E0806");
}

#[test]
fn enum_construct_tag_only_with_extra_args_is_e0806() {
    let src = "enum State { Idle, Running }\n\
               module M {\n  in a: bit\n  out y: State\n  y = State.Idle(a)\n}\n";
    first_err(src, "E0806");
}

#[test]
fn enum_construct_recurses_into_args_for_name_resolution() {
    let src = "enum Packet { Ctrl(k: bits[4]) }\n\
               module M {\n  out y: Packet\n  y = Packet.Ctrl(nosuch)\n}\n";
    first_err(src, "E0101");
}

#[test]
fn enum_construct_valid_use_checks_clean_and_infers_enum_ty() {
    let src = "enum Packet { Ctrl(k: bits[4]), Data(v: bits[8]) }\n\
               module M {\n  in k: bits[4]\n  out y: Packet\n  y = Packet.Ctrl(k)\n}\n";
    check_one(src).expect("valid EnumConstruct must check clean");
}

#[test]
fn enum_construct_literal_arg_adapts_to_field_width() {
    let src = "enum Packet { Ctrl(k: bits[4]) }\n\
               module M {\n  out y: Packet\n  y = Packet.Ctrl(3)\n}\n";
    check_one(src).expect("a literal argument must adapt to the field width");
}

#[test]
fn or_arm_same_names_same_widths_is_clean() {
    let src = format!(
        "{OP}module M {{\n  in cmd: Op\n  out o: bits[8]\n  o = match cmd {{\n    Op.Add(a, b), Op.Sub(a, b) => a\n    _ => 0\n  }}\n}}\n",
        OP = OP
    );
    check_one(&src).expect("identical OR-arm bindings compile clean");
}

#[test]
fn or_arm_three_alts_same_bindings_is_clean() {
    check_one("enum T { A(x: bits[8]), B(x: bits[8]), C(x: bits[8]) }\nmodule M {\n  in cmd: T\n  out o: bits[8]\n  o = match cmd {\n    T.A(x), T.B(x), T.C(x) => x\n    _ => 0\n  }\n}\n")
    .expect("3-way OR-arm with identical bindings compiles clean");
}

#[test]
fn or_arm_different_names_is_e0808() {
    let src = format!(
        "{OP}module M {{\n  in cmd: Op\n  out o: bits[8]\n  o = match cmd {{\n    Op.Add(a, b), Op.Big(x) => a\n    _ => 0\n  }}\n}}\n",
        OP = OP
    );
    first_err(&src, "E0808");
}

#[test]
fn or_arm_tag_only_alt_is_e0808() {
    let src = format!(
        "{OP}module M {{\n  in cmd: Op\n  out o: bits[8]\n  o = match cmd {{\n    Op.Add(a, b), Op.Nop => a\n    _ => 0\n  }}\n}}\n",
        OP = OP
    );
    first_err(&src, "E0808");
}

#[test]
fn or_arm_subset_binding_is_e0808() {
    first_err(
        "enum Op2 { Full(a: bits[8], b: bits[8]), Half(a: bits[8]) }\nmodule M {\n  in cmd: Op2\n  out o: bits[8]\n  o = match cmd {\n    Op2.Full(a, b), Op2.Half(a) => a\n    _ => 0\n  }\n}\n",
        "E0808",
    );
}

#[test]
fn or_arm_width_mismatch_is_e0808() {
    first_err(
        "enum Op3 { Big(x: bits[16]), Small(x: bits[8]) }\nmodule M {\n  in cmd: Op3\n  out o: bits[8]\n  o = match cmd {\n    Op3.Big(x), Op3.Small(x) => x[7:0]\n    _ => 0\n  }\n}\n",
        "E0808",
    );
}

#[test]
fn e0809_default_target_not_reg() {
    first_err(
        "module M {\n  clock clk\n  wire w: bit = 0\n  on rise(clk) {\n    default w <- 0\n  }\n}\n",
        "E0809",
    );
}

#[test]
fn e0810_duplicate_default() {
    first_err(
        "module M {\n  clock clk\n  reset rst\n  reg r: bit = 0\n  on rise(clk) {\n    default r <- 0\n    default r <- 1\n  }\n}\n",
        "E0810",
    );
}

#[test]
fn e0811_const_if_condition_not_const() {
    first_err(
        "module M {\n  in a: bit\n  out b: bit\n  const if (a) {\n    wire extra: bit = 0\n  }\n  b = 0\n}\n",
        "E0811",
    );
}

#[test]
fn fn_let_shadow_same_width_stays_clean() {
    let src = "fn bump(a: bits[8]) -> bits[8] {\n  let x = a\n  let x = x +% 1\n  x\n}\n\
               module M {\n  in a: bits[8]\n  out y: bits[8]\n  y = bump(a)\n}\n";
    check_one(src).expect("same-width fn-body let shadowing must check clean");
}

#[test]
fn or_arm_wildcard_not_binding_e0808() {
    let src = format!(
        "{OP}module M {{\n  in cmd: Op\n  out o: bits[8]\n  o = match cmd {{\n    Op.Add(a, b), _ => a\n    _ => 0\n  }}\n}}\n",
        OP = OP
    );
    first_err(&src, "E0808");
}

#[test]
fn bundle_duplicate_name_is_e0909() {
    first_err(
        "bundle Foo { valid: bit }\nbundle Foo { ready: bit }\nmodule Top { out z: bit\n  z = 0 }\n",
        "E0909",
    );
}

#[test]
fn bundle_clean_declaration_passes() {
    check_one("bundle Bus { valid: bit, data: bits[8] }\nmodule Top { out z: bit\n  z = 0 }\n")
        .expect("a well-formed bundle with concrete field types passes all passes");
}

#[test]
fn bundle_named_field_as_module_port_passes() {
    check_one("bundle Bus { valid: bit }\nmodule Top { in x: Bus\n  out z: bit\n  z = 0 }\n")
        .expect("a bundle-typed module port resolves without E0103");
}

#[test]
fn bundle_unknown_parametric_type_in_field_is_e0906() {
    first_err(
        "bundle Bad { x: NoSuchBundle(W: 32) }\nmodule Top { out z: bit\n  z = 0 }\n",
        "E0906",
    );
}

#[test]
fn bundle_nested_bundle_field_is_e0807() {
    first_err(
        "bundle Inner { v: bit }\nbundle Outer { x: Inner }\nmodule Top { out z: bit\n  z = 0 }\n",
        "E0807",
    );
}

#[test]
fn bundle_array_field_is_e0807() {
    first_err(
        "bundle Bad { f: bits[8][4] }\nmodule Top { out z: bit\n  z = 0 }\n",
        "E0807",
    );
}

#[test]
fn structurally_compatible_bundles_check_clean_in_a_drive() {
    let src = "bundle HasUART { tx: bit, rx: bit }\n\
               bundle SensorData { tx: bit, rx: bit }\n\
               module M {\n  in  a_tx: bit\n  in  a_rx: bit\n  \
               out b_tx: bit\n  out b_rx: bit\n  \
               wire a: SensorData = { tx: a_tx, rx: a_rx }\n  \
               out b: HasUART\n  \
               b = a\n  b_tx = b.tx\n  b_rx = b.rx\n}\n";
    check_one(src).expect("structurally-compatible differently-named bundles must check clean");
}

#[test]
fn structurally_compatible_bundle_with_extra_fields_checks_clean() {
    let src = "bundle HasUART { tx: bit, rx: bit }\n\
               bundle SensorData { tx: bit, rx: bit, power: bit }\n\
               module M {\n  in  a_tx: bit\n  in  a_rx: bit\n  in a_pw: bit\n  \
               out b_tx: bit\n  \
               wire a: SensorData = { tx: a_tx, rx: a_rx, power: a_pw }\n  \
               out b: HasUART\n  \
               b = a\n  b_tx = b.tx\n}\n";
    check_one(src)
        .expect("a provided bundle with EXTRA fields beyond what's required must check clean");
}

#[test]
fn drive_bundle_same_name_regression_still_checks_clean() {
    let src = "bundle HasUART { tx: bit, rx: bit }\n\
               module M {\n  in  a_tx: bit\n  in a_rx: bit\n  \
               out b_tx: bit\n  out b_rx: bit\n  \
               wire a: HasUART = { tx: a_tx, rx: a_rx }\n  \
               out b: HasUART\n  \
               b = a\n  b_tx = b.tx\n  b_rx = b.rx\n}\n";
    check_one(src).expect("same-name bundle assignment must still check clean");
}

#[test]
fn two_same_named_modules_each_get_their_own_clock_check() {
    let a = parse(
        "module Fifo {\n  clock cka\n  clock ckb\n  reset rst\n  in a: bit\n  out ya: bit\n  out yb: bit\n  reg ra: bit = 0\n  reg rb: bit = 0\n  on rise(cka) {\n    ra <- a\n  }\n  on rise(ckb) {\n    rb <- a\n  }\n  ya = ra\n  yb = rb\n}\n",
    );
    let b = parse(
        "module Fifo {\n  clock cka\n  clock ckb\n  reset rst\n  in a: bit\n  out yb: bit\n  reg ra: bit = 0\n  reg rb: bit = 0\n  on rise(cka) {\n    ra <- a\n  }\n  on rise(ckb) {\n    rb <- ra\n  }\n  yb = rb\n}\n",
    );
    let mut user = parse("module M {\n  let x = Fifo() { a: 0 }\n  let z = Fifo() { a: 0 }\n}\n");
    if let mimz_core::ast::TopItem::Module(m) = &mut user.items[0] {
        let mut insts = m.items.iter_mut().filter_map(|it| {
            if let mimz_core::ast::ModuleItem::Inst(i) = it {
                Some(i)
            } else {
                None
            }
        });
        let x = insts.next().unwrap();
        x.module.path.push(mimz_core::ast::Ident {
            name: "a".into(),
            span: x.module.span,
        });
        x.module.resolved_file = Some(1);
        let z = insts.next().unwrap();
        z.module.path.push(mimz_core::ast::Ident {
            name: "b".into(),
            span: z.module.span,
        });
        z.module.resolved_file = Some(2);
    }
    let diags = errs_multi(&[user, a, b]);
    assert!(
        diags.iter().any(|d| d.code == Some("E0701")),
        "file B's real cross-domain read must still be caught even though \
         file A declares a same-named, clean `Fifo` that registers first"
    );
}

#[test]
fn overlapping_import_prefixes_disambiguate_correctly() {
    let a = parse("module Fifo {\n  in x: bit\n  out y: bit\n  y = x\n}\n");
    let b = parse("module Fifo {\n  in w: bit\n  out z: bit\n  z = w\n}\n");
    let mut user = parse(
        "import a\nimport a.b\n\nmodule M {\n  let u1 = a.Fifo() { x: 0 }\n  \
         let u2 = a.b.Fifo() { w: 0 }\n}\n",
    );
    assert_eq!(user.imports.len(), 2, "sanity: both imports parsed");
    user.imports[0].resolved_file = Some(1);
    user.imports[1].resolved_file = Some(2);
    check(&[user, a, b]).expect(
        "a.Fifo() must resolve to file 1's Fifo (input `x`) and a.b.Fifo() \
         must resolve to file 2's Fifo (input `w`) — a prefix-only match \
         would misconnect one of them and trip E0107",
    );
}

#[test]
fn two_same_named_modules_each_get_their_own_clock_check_reversed_order() {
    let a = parse(
        "module Fifo {\n  clock cka\n  clock ckb\n  reset rst\n  in a: bit\n  out yb: bit\n  \
         reg ra: bit = 0\n  reg rb: bit = 0\n  on rise(cka) {\n    ra <- a\n  }\n  \
         on rise(ckb) {\n    rb <- ra\n  }\n  yb = rb\n}\n",
    );
    let b = parse(
        "module Fifo {\n  clock cka\n  clock ckb\n  reset rst\n  in a: bit\n  out ya: bit\n  \
         out yb: bit\n  reg ra: bit = 0\n  reg rb: bit = 0\n  on rise(cka) {\n    ra <- a\n  }\n  \
         on rise(ckb) {\n    rb <- a\n  }\n  ya = ra\n  yb = rb\n}\n",
    );
    let mut user = parse("module M {\n  let x = Fifo() { a: 0 }\n  let z = Fifo() { a: 0 }\n}\n");
    if let mimz_core::ast::TopItem::Module(m) = &mut user.items[0] {
        let mut insts = m.items.iter_mut().filter_map(|it| {
            if let mimz_core::ast::ModuleItem::Inst(i) = it {
                Some(i)
            } else {
                None
            }
        });
        let x = insts.next().unwrap();
        x.module.path.push(mimz_core::ast::Ident {
            name: "a".into(),
            span: x.module.span,
        });
        x.module.resolved_file = Some(1);
        let z = insts.next().unwrap();
        z.module.path.push(mimz_core::ast::Ident {
            name: "b".into(),
            span: z.module.span,
        });
        z.module.resolved_file = Some(2);
    }
    let diags = errs_multi(&[user, a, b]);
    assert!(
        diags.iter().any(|d| d.code == Some("E0701")),
        "file A's real cross-domain read must still be caught even though \
         it registers first and file B declares a same-named, clean `Fifo` \
         that registers second"
    );
}

#[test]
fn recursive_call_inside_return_is_e0805() {
    let src = "fn f(a: bits[8]) -> bits[8] {\n  if a[0] == 1 { return f(a) }\n  a\n}\nmodule M {\n  in a: bits[8]\n  out o: bits[8]\n  o = f(a)\n}\n";
    first_err(src, "E0805");
}

#[test]
fn unreachable_code_after_return_is_e0812() {
    let src = "fn f(a: bits[8]) -> bits[8] {\n  return a\n  let x = a\n  x\n}\nmodule M {\n  in a: bits[8]\n  out o: bits[8]\n  o = f(a)\n}\n";
    assert!(any_code(src, "E0812"));
}

#[test]
fn return_as_last_statement_before_tail_is_not_e0812() {
    let src = "fn f(a: bits[8]) -> bits[8] {\n  if a[0] == 1 { return a }\n  a\n}\nmodule M {\n  in a: bits[8]\n  out o: bits[8]\n  o = f(a)\n}\n";
    check_one(src).expect("return inside an if, followed by unrelated code, is not E0812");
}

#[test]
fn fn_loop_body_return_followed_by_more_code_is_unreachable() {
    let src = "fn f(a: bits[8]) -> bits[8] {\n  loop i: 0..1 {\n    return a\n    let x = a\n  }\n  0\n}\nmodule M {\n  in a: bits[8]\n  out o: bits[8]\n  o = f(a)\n}\n";
    let err =
        check_one(src).expect_err("`let x` after `return` inside the loop body is unreachable");
    assert!(err.iter().any(|d| d.code == Some("E0812")));
}

#[test]
fn fn_loop_after_return_in_sibling_branch_is_not_flagged() {
    let src = "fn f(a: bits[8]) -> bits[8] {\n  if a[0] == 1 { return a }\n  loop i: 0..1 {\n    let x = a\n  }\n  0\n}\nmodule M {\n  in a: bits[8]\n  out o: bits[8]\n  o = f(a)\n}\n";
    check_one(src)
        .expect("a `loop` after a conditional (non-exhaustive) return is not unreachable");
}

#[test]
fn array_literal_infers_its_own_type() {
    let src = "fn f(vals: bits[8][4]) -> bits[8] {\n  vals[0]\n}\nmodule M {\n  out o: bits[8]\n  o = f([1, 2, 3, 4])\n}\n";
    assert!(check_one(src).is_ok(), "{:?}", errs(src));
}

#[test]
fn array_param_forwarded_by_name_with_matching_type_is_accepted() {
    let src = "fn g(vals: bits[8][4]) -> bit {\n  0\n}\nfn f(vals: bits[8][4]) -> bit {\n  g(vals)\n}\nmodule M {\n  out o: bit\n  o = 0\n}\n";
    assert!(check_one(src).is_ok(), "{:?}", errs(src));
}

#[test]
fn runtime_array_index_is_accepted() {
    let src = "fn f(vals: bits[8][4], i: bits[2]) -> bits[8] {\n  vals[i]\n}\nmodule M {\n  in i: bits[2]\n  out o: bits[8]\n  o = f([1, 2, 3, 4], i)\n}\n";
    assert!(check_one(src).is_ok(), "{:?}", errs(src));
}

#[test]
fn array_typed_module_port_is_e0416() {
    let src = "module M {\n  in vals: bits[8][4]\n  out o: bit\n  o = vals[0][0]\n}\n";
    assert!(any_code(src, "E0416"));
}

#[test]
fn array_typed_wire_is_e0416() {
    let src =
        "module M {\n  wire vals: bits[8][4] = [1, 2, 3, 4]\n  out o: bit\n  o = vals[0][0]\n}\n";
    assert!(any_code(src, "E0416"));
}

#[test]
fn array_typed_output_with_constant_indexed_drive_is_e0416_not_a_panic() {
    let src = "module M {\n  out vals: bits[8][4]\n  vals[0] = 1\n}\n";
    assert!(any_code(src, "E0416"));
}

#[test]
fn extern_module_duplicate_in_same_file_is_e1301() {
    let src = "extern module Pll { in clk_in: bit }\n\
               extern module Pll { in clk_in: bit }\n\
               module M { }\n";
    first_err(src, "E1301");
}

#[test]
fn extern_module_bundle_typed_port_is_e1302() {
    let src = "bundle B { x: bit }\n\
               extern module Pll { in b: B }\n\
               module M { }\n";
    first_err(src, "E1302");
}

#[test]
fn extern_module_array_typed_port_is_e1302() {
    let src = "extern module Pll { in vals: bits[8][4] }\nmodule M { }\n";
    first_err(src, "E1302");
}

#[test]
fn extern_module_scalar_ports_check_clean() {
    let src = "extern module Pll(MULT: int = 2) {\n  \
               doc: \"test\"\n  in clk_in: bit\n  out clk_out: bit\n  out locked: bit\n}\n\
               module M { }\n";
    check_one(src).expect("a scalar-only extern module must check clean");
}

#[test]
fn extern_instantiation_checks_clean_with_correct_connections() {
    let src = "extern module Pll(MULT: int = 2) {\n  \
               clock clk_in\n  out clk_out: bit\n  out locked: bit\n}\n\
               module M {\n  clock sysclk\n  out fast: bit\n  out ok: bit\n  \
               let u = Pll(MULT: 4) { clk_in: sysclk }\n  fast = u.clk_out\n  ok = u.locked\n}\n";
    check_one(src).expect("valid extern instantiation must check clean");
}

#[test]
fn extern_instantiation_missing_input_connection_is_reported() {
    let src = "extern module Pll { in clk_in: bit\n  out clk_out: bit }\n\
               module M {\n  out fast: bit\n  let u = Pll() { }\n  fast = u.clk_out\n}\n";
    first_err(src, "E0302");
}

#[test]
fn extern_instantiation_unknown_port_is_reported() {
    let src = "extern module Pll { in clk_in: bit }\n\
               module M {\n  in x: bit\n  let u = Pll() { nope: x }\n}\n";
    first_err(src, "E0107");
}

#[test]
fn structurally_compatible_bundle_wire_binding_checks_clean() {
    let src = "bundle HasUART { tx: bit, rx: bit }\n\
               bundle SensorData { tx: bit, rx: bit }\n\
               module M {\n  in a_tx: bit\n  in a_rx: bit\n  out b_tx: bit\n  out b_rx: bit\n  \
               wire a: SensorData = { tx: a_tx, rx: a_rx }\n  \
               wire b: HasUART = a\n  \
               b_tx = b.tx\n  b_rx = b.rx\n}\n";
    check_one(src).expect("a structurally-compatible wire binding must check clean");
}

#[test]
fn structurally_compatible_fn_arg_checks_clean() {
    let src = "bundle HasUART { tx: bit, rx: bit }\n\
               bundle SensorData { tx: bit, rx: bit }\n\
               fn pick_tx(u: HasUART) -> bit { u.tx }\n\
               module M {\n  in  a_tx: bit\n  in a_rx: bit\n  out o: bit\n  \
               wire a: SensorData = { tx: a_tx, rx: a_rx }\n  \
               o = pick_tx(a)\n}\n";
    check_one(src).expect("a structurally-compatible fn argument must check clean");
}


#[test]
fn names_sync_loop_generated_name_collision_is_e0003() {
    let src = "module M {\n  clock clk\n  in find_first_start: bit\n  sync loop find_first on rise(clk) (i: 0..4) -> result: bit = 0 {\n    result <- 1\n  }\n}\n";
    let diags = diags_for(src);
    assert!(diags.iter().any(|d| d.code == Some("E0003")));
}

#[test]
fn tests_sync_loop_generated_name_collision_is_e0003() {
    let src = "module M {\n  clock clk\n  in find_first_start: bit\n  sync loop find_first on rise(clk) (i: 0..4) -> result: bit = 0 {\n    result <- 1\n  }\n}\n";
    let diags = diags_for(src);
    assert!(diags.iter().any(|d| d.code == Some("E0003")));
}

#[test]
fn sync_double_flop_generated_name_collision_is_e0003() {
    let src = "module M {\n\
                 clock clk_src\n\
                 clock clk_dst\n\
                 in fast_bit: bit\n\
                 reg slow_bit: bit = 0\n\
                 reg __sync_slow_bit_stage0: bit = 0\n\
                 reset rst\n\
                 on rise(clk_dst) {\n\
                     slow_bit <- sync.double_flop(fast_bit, clk_src, clk_dst)\n\
                 }\n\
               }";
    let diags = diags_for(src);
    assert!(diags.iter().any(|d| d.code == Some("E0003")), "{diags:?}");
}

#[test]
fn sync_pulse_generated_name_collision_is_e0003() {
    let src = "module M {\n\
                 clock clk_src\n\
                 clock clk_dst\n\
                 in src_pulse: bit\n\
                 reg __sync_dst_pulse_toggle: bit = 0\n\
                 reset rst\n\
                 wire dst_pulse: bit = sync.pulse(src_pulse, clk_src, clk_dst)\n\
                 out o: bit\n\
                 o = dst_pulse\n\
               }";
    let diags = diags_for(src);
    assert!(diags.iter().any(|d| d.code == Some("E0003")), "{diags:?}");
}

#[test]
fn a_literal_past_the_old_i128_ceiling_folds_cleanly() {
    let src = "const HUGE: int = 170141183460469231731687303715884105728";
    let v = eval_src(src).expect("2^127 must fold cleanly now");
    assert!(v.bits != Bits::Small(0));
    assert!(!v.signed);
}

#[test]
fn addition_past_128_bits_folds_to_a_wide_constval() {
    let src = "const HUGE: int = 170141183460469231731687303715884105728 + 170141183460469231731687303715884105728";
    let v = eval_src(src).expect("addition of two large values must fold");
    assert!(matches!(v.bits, Bits::Wide(_)) || v.width > 128);
}

#[test]
fn a_constant_exceeding_max_width_is_a_clean_e0202_error() {
    let src = "const HUGE: int = 1 << 1000001";
    let err = eval_src(src).expect_err("must exceed MAX_WIDTH cleanly, not panic");
    assert_eq!(err.code, Some("E0202"));
}

#[test]
fn negation_round_trips_through_shrink() {
    let src = "const N: int = -5";
    let v = eval_src(src).expect("negation must fold");
    assert!(v.signed);
    assert_eq!(v.width, 4);
}

#[test]
fn small_arithmetic_still_works_exactly_as_before() {
    assert_eq!(eval_src("const N: int = 2 + 3").unwrap().bits, Bits::Small(5));
    assert_eq!(eval_src("const N: int = 10 - 3").unwrap().bits, Bits::Small(7));
    assert_eq!(eval_src("const N: int = 4 * 5").unwrap().bits, Bits::Small(20));
    assert!(eval_src("const N: int = 3 == 3").unwrap().bits == Bits::Small(1));
    assert!(eval_src("const N: int = 3 != 3").unwrap().bits == Bits::Small(0));
    assert!(eval_src("const N: int = 2 < 3").unwrap().bits == Bits::Small(1));
}

fn loaded(src: &str) -> Vec<LoadedFile> {
    vec![LoadedFile {
        path: "m.mimz".to_string(),
        src: src.to_string(),
        ast: parse(src),
    }]
}

fn offset_of(src: &str, needle: &str) -> usize {
    src.find(needle).expect("needle present")
}

#[test]
fn index_collects_each_definition_kind() {
    let src = "const N: int = 4\nenum State { Red, Green }\nmodule M(W: int = 8) {\n  in a: bits[8]\n  out y: bit\n  clock clk\n  reg r: bit = false\n  y = a[0]\n}\n";
    let idx = build_index(&loaded(src));
    let names: Vec<&str> = idx.symbols.iter().map(|s| s.name.as_str()).collect();
    for want in ["N", "State", "Red", "Green", "M", "W", "a", "y", "clk", "r"] {
        assert!(
            names.contains(&want),
            "missing symbol `{want}` in {names:?}"
        );
    }
    let y = idx.symbols.iter().find(|s| s.name == "y").unwrap();
    assert!(matches!(y.kind, SymKind::Port { .. }));
    assert!(y.render.contains("out y: bit"), "got render {:?}", y.render);
}

#[test]
fn resolve_at_use_returns_definition() {
    let src = "module M {\n  in a: bit\n  out y: bit\n  y = a\n}\n";
    let files = loaded(src);
    let idx = build_index(&files);
    let use_off = src.rfind('a').unwrap();
    let sym = resolve_at(&idx, &files, 0, use_off).expect("resolves");
    assert_eq!(idx.symbols[sym].name, "a");
    assert!(matches!(idx.symbols[sym].kind, SymKind::Port { .. }));
    assert_eq!(idx.symbols[sym].span.start, offset_of(src, "a: bit"));
}

#[test]
fn resolve_at_works_on_partial_tree() {
    let src = "module M {\n  in a: bit\n  let\n  out y: bit\n  y = a\n}\n";
    let files = loaded(src);
    let idx = build_index(&files);
    let use_off = src.rfind('a').unwrap();
    let sym = resolve_at(&idx, &files, 0, use_off).expect("resolves around Error node");
    assert_eq!(idx.symbols[sym].name, "a");
}

#[test]
fn resolve_at_inside_test_block() {
    let src = "module Adder {\n  in a: bit\n  out sum: bit\n  sum = a\n}\ntest \"works\" for Adder {\n  a = true\n  expect sum\n}\n";
    let files = loaded(src);
    let idx = build_index(&files);
    let m_off = src.find("for Adder").unwrap() + "for ".len();
    let sym = resolve_at(&idx, &files, 0, m_off).expect("module-under-test resolves");
    assert_eq!(idx.symbols[sym].name, "Adder");
    assert!(matches!(idx.symbols[sym].kind, SymKind::Module));
    let a_off = src.find("a = true").unwrap();
    let sym = resolve_at(&idx, &files, 0, a_off).expect("driven input resolves");
    assert_eq!(idx.symbols[sym].name, "a");
    assert!(matches!(idx.symbols[sym].kind, SymKind::Port { .. }));
    let y_off = src.find("expect sum").unwrap() + "expect ".len();
    let sym = resolve_at(&idx, &files, 0, y_off).expect("expected signal resolves");
    assert_eq!(idx.symbols[sym].name, "sum");
}

#[test]
fn resolve_at_cross_file_instance() {
    let lib = "module Adder {\n  in a: bit\n  out s: bit\n  s = a\n}\n";
    let top = "module Top {\n  in x: bit\n  out z: bit\n  let u = Adder() { a: x }\n  z = u.s\n}\n";
    let mk = |path: &str, src: &str| LoadedFile {
        path: path.to_string(),
        src: src.to_string(),
        ast: parse(src),
    };
    let files = vec![mk("top.mimz", top), mk("adder.mimz", lib)];
    let idx = build_index(&files);
    let off = top.find("Adder").unwrap();
    let sym = resolve_at(&idx, &files, 0, off).expect("module ref resolves");
    assert_eq!(idx.symbols[sym].name, "Adder");
    assert_eq!(idx.symbols[sym].file_idx, 1);
}

#[test]
fn completions_include_scope_idents_and_majority_keywords() {
    let src = "module M {\n  in abc: bit\n  out y: bit\n  y = \n}\n";
    let files = loaded(src);
    let idx = build_index(&files);
    let at = src.find("y = ").unwrap() + 4;
    let cands = completions(&idx, &files, 0, at, &["module", "in", "out"]);
    let labels: Vec<&str> = cands.iter().map(|c| c.label.as_str()).collect();
    assert!(labels.contains(&"abc"), "in-scope port missing: {labels:?}");
    assert!(labels.contains(&"module"), "English keyword missing");
    assert!(matches!(
        cands.iter().find(|c| c.label == "abc").unwrap().kind,
        CandKind::Symbol(SymKind::Port { .. })
    ));
}

#[test]
fn completions_outside_a_module_offer_no_members() {
    let src = "const K: int = 1\nmodule M {\n  in abc: bit\n}\n";
    let files = loaded(src);
    let idx = build_index(&files);
    let cands = completions(&idx, &files, 0, 0, &[]);
    let labels: Vec<&str> = cands.iter().map(|c| c.label.as_str()).collect();
    assert_eq!(labels, vec!["K", "M"]);
}

#[test]
fn members_point_back_at_their_module() {
    let src = "module A {\n  in x: bit\n}\nmodule B(P: int = 1) {\n  out y: bit\n  repeat i: 0..2 {\n    wire w: bit = x\n  }\n}\n";
    let idx = build_index(&loaded(src));
    let pos = |n: &str| idx.symbols.iter().position(|s| s.name == n).unwrap();
    assert_eq!(idx.symbols[pos("x")].module_idx, Some(pos("A")));
    assert_eq!(idx.symbols[pos("P")].module_idx, Some(pos("B")));
    assert_eq!(idx.symbols[pos("w")].module_idx, Some(pos("B")));
    assert_eq!(idx.symbols[pos("A")].module_idx, None);
    assert_eq!(idx.symbols[pos("w")].render, "wire w: bit");
    assert_eq!(idx.symbols[pos("P")].render, "P: int — parameter");
}

#[test]
fn resolve_at_on_whitespace_is_none() {
    let src = "module M {\n  in a: bit\n}\n";
    let files = loaded(src);
    let idx = build_index(&files);
    assert_eq!(resolve_at(&idx, &files, 0, 0), None);
}

#[test]
fn a_sync_pulse_in_a_repeat_bound_is_e0705() {
    let src = "module M {\n  clock a\n  clock b\n  in x: bit\n  out y: bits[4]\n  repeat i: sync.pulse(x, a)..4 {\n    y[i] = 0\n  }\n}\n";
    assert!(any_code(src, "E0705"), "a sync primitive in a repeat bound is in no legal position");
}

#[test]
fn an_unknown_const_name_is_e0201_naming_it() {
    let d = eval_src("const N: int = missing + 1\n").unwrap_err();
    assert_eq!(d.code, Some("E0201"));
    assert!(d.msg.contains("`missing` is not a compile-time constant"), "{}", d.msg);
}

#[test]
fn a_wrapping_operator_on_an_unknown_operand_reports_the_operand_first() {
    let d = eval_src("const N: int = missing +% 1\n").unwrap_err();
    assert_eq!(d.code, Some("E0201"));
    assert!(d.msg.contains("`missing`"), "{}", d.msg);
}

#[test]
fn a_field_on_a_clock_is_e0105() {
    let src = "module M {\n  clock clk\n  out y: bit\n  y = clk.x\n}\n";
    assert!(any_code(src, "E0105"));
}

#[test]
fn a_negative_i128_round_trips_through_a_constval() {
    let c = ConstVal::from_i128(-5);
    assert_eq!(c.bits, Bits::Small(0b1011));
    assert_eq!(c.width, 4);
    assert!(c.signed);
    assert_eq!(c.to_i128_saturating(), -5);
    assert_eq!(ConstVal::from_i128(i128::MIN).to_i128_saturating(), i128::MIN);
}

#[test]
fn products_and_differences_of_signed_constants_are_exact() {
    let v = eval_src("const N: int = (0 - 3) * 5").unwrap();
    assert_eq!(v.to_i128_saturating(), -15);
    assert!(v.signed);
    let d = eval_src("const N: int = 7 - 12").unwrap();
    assert_eq!(d.to_i128_saturating(), -5);
    assert_eq!(d.bits, Bits::Small(0b1011));
    assert_eq!(d.width, 4);
    let n = eval_src("const N: int = -(0 - 8)").unwrap();
    assert_eq!(n.to_i128_saturating(), 8);
    assert!(!n.signed);
    assert_eq!(n.width, 4);
}

#[test]
fn a_left_shift_multiplies_by_a_power_of_two() {
    let v = eval_src("const N: int = (0 - 3) << 4").unwrap();
    assert_eq!(v.to_i128_saturating(), -48);
    let big = eval_src("const N: int = 1 << 200").unwrap();
    assert_eq!(big.width, 201);
    assert!(!big.signed);
    assert_eq!(big.to_i128_saturating(), i128::MAX);
}

#[test]
fn a_conditional_constant_takes_the_branch_its_condition_picks() {
    let v = eval_src("const N: int = if 2 - 2 { 10 } else { 20 }").unwrap();
    assert_eq!(v.to_i128_saturating(), 20);
    let w = eval_src("const N: int = if 0 - 1 { 10 } else { 20 }").unwrap();
    assert_eq!(w.to_i128_saturating(), 10);
}

#[test]
fn an_i128_reads_back_from_its_constant_at_the_extremes() {
    for v in [i128::MIN, i128::MIN + 1, -1, 0, 1, i128::MAX] {
        assert_eq!(ConstVal::from_i128(v).to_i128_saturating(), v);
    }
    let m = ConstVal::from_i128(-1);
    assert_eq!(m.bits, Bits::Small(1));
    assert_eq!(m.width, 1);
    assert!(m.signed);
}

#[test]
fn a_right_shift_rounds_toward_negative_infinity() {
    assert_eq!(eval_src("const N: int = 7 >> 1").unwrap().to_i128_saturating(), 3);
    assert_eq!(eval_src("const N: int = (0 - 7) >> 1").unwrap().to_i128_saturating(), -4);
    assert_eq!(eval_src("const N: int = (0 - 7) >> 10").unwrap().to_i128_saturating(), -1);
    assert_eq!(eval_src("const N: int = 7 >> 10").unwrap().to_i128_saturating(), 0);
    assert_eq!(eval_src("const N: int = 5 >> 0").unwrap().to_i128_saturating(), 5);
}

#[test]
fn comparisons_order_constants_by_value() {
    let one = |src: &str| eval_src(src).unwrap().to_i128_saturating();
    assert_eq!(one("const N: int = (0 - 3) < 2"), 1);
    assert_eq!(one("const N: int = (0 - 3) < (0 - 5)"), 0);
    assert_eq!(one("const N: int = 300 >= 299"), 1);
    assert_eq!(one("const N: int = 7 <= 6"), 0);
    assert_eq!(one("const N: int = (0 - 1) > (0 - 2)"), 1);
    assert_eq!(one("const N: int = 4 == 4"), 1);
    assert_eq!(one("const N: int = 4 != 4"), 0);
}

#[test]
fn a_sum_past_the_width_ceiling_is_e0202_not_a_wrap() {
    let d = eval_src("const N: int = (1 << 999999) + (1 << 999999)").unwrap_err();
    assert_eq!(d.code, Some("E0202"));
    let ok = eval_src("const N: int = (1 << 999998) + (1 << 999998)").unwrap();
    assert_eq!(ok.width, 1_000_000);
    assert!(!ok.signed);
}

#[test]
fn bitwise_operators_act_on_two_s_complement_digits() {
    let one = |src: &str| eval_src(src).unwrap().to_i128_saturating();
    assert_eq!(one("const N: int = (0 - 6) & 5"), 0);
    assert_eq!(one("const N: int = (0 - 6) | 5"), -1);
    assert_eq!(one("const N: int = 12 ^ 10"), 6);
    assert_eq!(one("const N: int = (0 - 1) ^ 7"), -8);
}

#[test]
fn clog2_of_a_wide_constant_counts_its_bits() {
    let one = |src: &str| eval_src(src).unwrap().to_i128_saturating();
    assert_eq!(one("const N: int = clog2(1 << 200)"), 200);
    assert_eq!(one("const N: int = clog2((1 << 200) + 1)"), 201);
    assert_eq!(one("const N: int = clog2(1 << 128)"), 128);
    assert_eq!(one("const N: int = clog2(5)"), 3);
    assert_eq!(one("const N: int = clog2(1)"), 1);
    let d = eval_src("const N: int = clog2(0)").unwrap_err();
    assert_eq!(d.code, Some("E0202"));
}

#[test]
fn every_function_of_a_mutual_cycle_is_e0805_and_its_callers_are_not() {
    let src = "fn even(a: bits[8]) -> bits[8] {\n  odd(a)\n}\nfn odd(a: bits[8]) -> bits[8] {\n  even(a)\n}\nfn top(a: bits[8]) -> bits[8] {\n  even(a)\n}\nmodule M {\n  in a: bits[8]\n  out o: bits[8]\n  o = top(a)\n}\n";
    let diags = errs(src);
    let cyc: Vec<&str> = diags
        .iter()
        .filter(|d| d.code == Some("E0805"))
        .map(|d| if d.msg.contains("`even`") { "even" } else if d.msg.contains("`odd`") { "odd" } else { "other" })
        .collect();
    assert_eq!(cyc, vec!["even", "odd"]);
}
