#![allow(dead_code, unused_imports, clippy::all)]

use bitwright::bitvec::{BitVec, Width};
use bitwright::engine::budget::{Admission, Allowance, Budget, Clock, Deadline};
use bitwright::engine::builder::EngineBuilder;
use bitwright::engine::link::Engine;
use bitwright::engine::run::{End, Outcome, RootOutcome, Run};
use bitwright::engine::stats::{By, Event, Hooks, Observer, PassTable};
use bitwright::engine::strategy::{Phase, Sharing, Strategy, Verify};
use bitwright::expr::{Context, Error, Expr, NodeView};
use bitwright::facts::store::Assumptions;
use bitwright::ops::{BinOp, CmpOp, CmpOpExt, UnOp};
use std::collections::{BTreeMap, HashMap, HashSet};

use bitwright::check::examples::check_examples;
use bitwright::check::host::{rewrite, RewriteCheckConfig, RewriteFailure, RewriteInput, RewriteReport};
use bitwright::check::rules::check_rule;
use bitwright::check::verdict::{CheckConfig, Counterexample, ExampleFailure, RuleCheck, Verdict};
use bitwright::engine::builder::BuildError;
use bitwright::engine::host::{HostLink, Rewrite, Site};
use bitwright::rules::rule::{
    ConstPred, FactPred, Group, Ledger, Param, ParamKind, RNode, Rule, RuleId, RuleKind, RuleProgram,
    WExpr, WRel, Where,
};

// ----- rules as text ------------------------------------------------------------------------------

/// Words and operators of rule text.
fn rule_tokens(src: &str) -> Vec<String> {
    let s: Vec<char> = src.chars().collect();
    let mut out = Vec::new();
    let mut i = 0;
    while i < s.len() {
        if s[i].is_whitespace() {
            i += 1;
            continue;
        }
        let start = i;
        if s[i].is_alphanumeric() || s[i] == '_' {
            while i < s.len() && (s[i].is_alphanumeric() || s[i] == '_') {
                i += 1;
            }
        } else {
            let mut n = 1;
            for op in [
                "<=>", ">>u", ">>s", "<=u", "<=s", ">=u", ">=s", "<<", "==", "!=", "=>", "&&", "||", "<=", ">=", "<u", "<s",
                ">u", ">s",
            ] {
                let o: Vec<char> = op.chars().collect();
                // `<s` and the like are operators only before a space.
                let word = op.ends_with('u') || op.ends_with('s');
                if s[i..].starts_with(&o) && (!word || s.get(i + o.len()).is_none_or(|c| *c == ' ')) {
                    n = o.len();
                    break;
                }
            }
            i += n;
        }
        out.push(s[start..i].iter().collect());
    }
    out
}

/// A width as a constant and a multiple of each variable.
#[derive(Clone, Debug, PartialEq)]
struct Lin(i64, Vec<i64>);

impl Lin {
    fn wexpr(&self) -> WExpr {
        WExpr { konst: self.0, coefs: self.1.clone() }
    }

    fn plus(&self, o: &Lin, k: i64) -> Lin {
        Lin(self.0 + k * o.0, self.1.iter().zip(&o.1).map(|(a, b)| a + k * b).collect())
    }
}

#[derive(Clone, Debug)]
enum Rx {
    Num(i64, Option<Lin>),
    Name(String),
    Ones,
    LowMask(Lin),
    Width(Lin, Option<Lin>),
    Un(UnOp, Box<Rx>),
    Bin(BinOp, Box<Rx>, Box<Rx>),
    Rel(CmpOpExt, Box<Rx>, Box<Rx>),
    Zext(Lin, Box<Rx>),
    Sext(Lin, Box<Rx>),
    Trunc(Lin, Box<Rx>),
    Concat(Box<Rx>, Box<Rx>),
    Bool(bool),
    And(Box<Rx>, Box<Rx>),
    Or(Box<Rx>, Box<Rx>),
    Fact(FactPred, Box<Rx>, Option<Box<Rx>>),
    ConstP(ConstPred, Box<Rx>),
}

struct RuleText {
    toks: Vec<String>,
    at: usize,
    vars: Vec<String>,
    params: Vec<(String, Lin, ParamKind)>,
    lets: Vec<(String, Lin)>,
    nodes: Vec<RNode>,
    widths: Vec<WExpr>,
    let_nodes: Vec<u32>,
}

impl RuleText {
    fn peek(&self) -> &str {
        self.toks.get(self.at).map(|s| s.as_str()).unwrap_or("")
    }

    fn next(&mut self) -> String {
        let t = self.peek().to_string();
        self.at += 1;
        t
    }

    fn want(&mut self, t: &str) {
        let got = self.next();
        assert_eq!(got, t, "at {} of {:?}", self.at, self.toks);
    }

    fn konst(&self, k: i64) -> Lin {
        Lin(k, vec![0; self.vars.len()])
    }

    /// A width: sums and multiples.
    fn width(&mut self) -> Lin {
        let mut acc = self.width_term();
        loop {
            match self.peek() {
                "+" => {
                    self.next();
                    let t = self.width_term();
                    acc = acc.plus(&t, 1);
                }
                "-" => {
                    self.next();
                    let t = self.width_term();
                    acc = acc.plus(&t, -1);
                }
                _ => return acc,
            }
        }
    }

    fn width_term(&mut self) -> Lin {
        let t = self.next();
        if let Ok(k) = t.parse::<i64>() {
            if self.peek() == "*" {
                self.next();
                let v = self.width_term();
                return self.konst(0).plus(&v, k);
            }
            return self.konst(k);
        }
        let i = self.vars.iter().position(|v| *v == t).unwrap_or_else(|| panic!("{t}"));
        let mut l = self.konst(0);
        l.1[i] = 1;
        l
    }

    /// Expressions, loosest operator first.
    fn expr(&mut self, level: usize) -> Rx {
        if level == 8 {
            return self.atom();
        }
        let mut a = self.expr(level + 1);
        loop {
            let op = self.peek().to_string();
            let rel = match op.as_str() {
                "==" => Some(CmpOpExt::Eq),
                "!=" => Some(CmpOpExt::Ne),
                "<u" => Some(CmpOpExt::Ult),
                "<=u" => Some(CmpOpExt::Ule),
                ">u" => Some(CmpOpExt::Ugt),
                ">=u" => Some(CmpOpExt::Uge),
                "<s" => Some(CmpOpExt::Slt),
                "<=s" => Some(CmpOpExt::Sle),
                ">s" => Some(CmpOpExt::Sgt),
                ">=s" => Some(CmpOpExt::Sge),
                _ => None,
            };
            let bin = match (level, op.as_str()) {
                (3, "|") => Some(BinOp::Or),
                (4, "^") => Some(BinOp::Xor),
                (5, "&") => Some(BinOp::And),
                (6, "<<") => Some(BinOp::Shl),
                (6, ">>u") => Some(BinOp::LShr),
                (6, ">>s") => Some(BinOp::AShr),
                (7, "+") => Some(BinOp::Add),
                (7, "-") => Some(BinOp::Sub),
                _ => None,
            };
            if level == 0 && op == "||" {
                self.next();
                let b = self.expr(level + 1);
                a = Rx::Or(Box::new(a), Box::new(b));
            } else if level == 1 && op == "&&" {
                self.next();
                let b = self.expr(level + 1);
                a = Rx::And(Box::new(a), Box::new(b));
            } else if let (2, Some(rel)) = (level, rel) {
                self.next();
                let b = self.expr(level + 1);
                a = Rx::Rel(rel, Box::new(a), Box::new(b));
            } else if let Some(bin) = bin {
                self.next();
                let b = self.expr(level + 1);
                a = Rx::Bin(bin, Box::new(a), Box::new(b));
            } else {
                return a;
            }
        }
    }

    fn args(&mut self) -> Vec<Rx> {
        self.want("(");
        let mut out = Vec::new();
        loop {
            out.push(self.expr(0));
            if self.next() == ")" {
                return out;
            }
        }
    }

    fn atom(&mut self) -> Rx {
        let mut a = self.unary();
        while self.peek() == "*" {
            self.next();
            let b = self.unary();
            a = Rx::Bin(BinOp::Mul, Box::new(a), Box::new(b));
        }
        a
    }

    fn unary(&mut self) -> Rx {
        let t = self.next();
        match t.as_str() {
            "(" => {
                let a = self.expr(0);
                self.want(")");
                return a;
            }
            "~" => return Rx::Un(UnOp::Not, Box::new(self.unary())),
            "-" => return Rx::Un(UnOp::Neg, Box::new(self.unary())),
            "true" => return Rx::Bool(true),
            "false" => return Rx::Bool(false),
            "ones" => return Rx::Ones,
            "lowmask" => {
                self.want("(");
                let l = self.width();
                self.want(")");
                return Rx::LowMask(l);
            }
            "zext" | "sext" | "trunc" => {
                self.want("<");
                let l = self.width();
                self.want(">");
                let a = Box::new(self.args().remove(0));
                return match t.as_str() {
                    "zext" => Rx::Zext(l, a),
                    "sext" => Rx::Sext(l, a),
                    _ => Rx::Trunc(l, a),
                };
            }
            _ => {}
        }
        let colon = |p: &mut RuleText| {
            if p.peek() == ":" {
                p.next();
                Some(p.width_term())
            } else {
                None
            }
        };
        if let Ok(v) = t.parse::<i64>() {
            let w = colon(self);
            return Rx::Num(v, w);
        }
        if self.peek() == "(" {
            let mut args = self.args();
            let two = args.len() > 1;
            let a = Box::new(args.remove(0));
            let b = if two { Some(Box::new(args.remove(0))) } else { None };
            return match t.as_str() {
                "udiv" => Rx::Bin(BinOp::UDiv, a, b.unwrap()),
                "sdiv" => Rx::Bin(BinOp::SDiv, a, b.unwrap()),
                "srem" => Rx::Bin(BinOp::SRem, a, b.unwrap()),
                "rotl" => Rx::Bin(BinOp::RotL, a, b.unwrap()),
                "ctz" => Rx::Un(UnOp::Ctz, a),
                "concat" => Rx::Concat(a, b.unwrap()),
                "is_pow2" => Rx::ConstP(ConstPred::IsPow2, a),
                "is_low_mask" => Rx::ConstP(ConstPred::IsLowMask, a),
                "is_shifted_mask" => Rx::ConstP(ConstPred::IsShiftedMask, a),
                "proves" => Rx::Fact(FactPred::Proves, a, None),
                "nonzero" => Rx::Fact(FactPred::NonZero, a, None),
                "zero_bits" => Rx::Fact(FactPred::ZeroBits, a, b),
                "one_bits" => Rx::Fact(FactPred::OneBits, a, b),
                "disjoint" => Rx::Fact(FactPred::Disjoint, a, b),
                _ => panic!("{t}"),
            };
        }
        if self.vars.contains(&t) {
            self.at -= 1;
            let l = self.width_term();
            let w = colon(self);
            return Rx::Width(l, w);
        }
        Rx::Name(t)
    }

    fn width_said(&self, x: &Rx) -> Option<Lin> {
        match x {
            Rx::Num(_, w) | Rx::Width(_, w) => w.clone(),
            Rx::Name(n) => self
                .params
                .iter()
                .find(|p| p.0 == *n)
                .map(|p| p.1.clone())
                .or_else(|| self.lets.iter().find(|l| l.0 == *n).map(|l| l.1.clone())),
            Rx::Ones | Rx::LowMask(_) => None,
            Rx::Un(_, a) => self.width_said(a),
            Rx::Bin(_, a, b) => self.width_said(a).or_else(|| self.width_said(b)),
            Rx::Zext(l, _) | Rx::Sext(l, _) | Rx::Trunc(l, _) => Some(l.clone()),
            Rx::Concat(a, b) => Some(self.width_said(a)?.plus(&self.width_said(b)?, 1)),
            _ => Some(self.konst(1)),
        }
    }

    fn push(&mut self, n: RNode, w: &Lin) -> u32 {
        self.nodes.push(n);
        self.widths.push(w.wexpr());
        self.nodes.len() as u32 - 1
    }

    fn put(&mut self, x: &Rx, w: &Lin) -> u32 {
        let one = self.konst(1);
        match x {
            Rx::Num(v, n) => {
                let n = n.clone().unwrap_or(w.clone());
                self.push(RNode::Lit(*v), &n)
            }
            Rx::Name(s) => {
                if let Some(i) = self.params.iter().position(|p| p.0 == *s) {
                    let n = self.params[i].1.clone();
                    self.push(RNode::Param(i as u16), &n)
                } else {
                    let i = self.lets.iter().position(|l| l.0 == *s).unwrap_or_else(|| panic!("{s}"));
                    let n = self.lets[i].1.clone();
                    self.push(RNode::Let(i as u16), &n)
                }
            }
            Rx::Ones => self.push(RNode::Ones, w),
            Rx::LowMask(l) => self.push(RNode::LowMask(l.wexpr()), w),
            Rx::Width(l, n) => {
                let n = n.clone().unwrap_or(w.clone());
                self.push(RNode::WidthVal(l.wexpr()), &n)
            }
            Rx::Un(op, a) => {
                let a = self.put(a, w);
                self.push(RNode::Un(*op, a), w)
            }
            Rx::Bin(op, a, b) => {
                let n = self.width_said(x).unwrap_or(w.clone());
                let (a, b) = (self.put(a, &n), self.put(b, &n));
                self.push(RNode::Bin(*op, a, b), &n)
            }
            Rx::Rel(op, a, b) => {
                let n = self.width_said(a).or_else(|| self.width_said(b)).unwrap();
                let (a, b) = (self.put(a, &n), self.put(b, &n));
                self.push(RNode::Cmp(*op, a, b), &one)
            }
            Rx::Zext(l, a) => {
                let n = self.width_said(a).unwrap();
                let a = self.put(a, &n);
                self.push(RNode::Zext(a), l)
            }
            Rx::Sext(l, a) => {
                let n = self.width_said(a).unwrap();
                let a = self.put(a, &n);
                self.push(RNode::Sext(a), l)
            }
            Rx::Trunc(l, a) => {
                let n = self.width_said(a).unwrap();
                let a = self.put(a, &n);
                let zero = self.konst(0).wexpr();
                self.push(RNode::Extract(zero, a), l)
            }
            Rx::Concat(a, b) => {
                let (p, q) = (self.width_said(a).unwrap(), self.width_said(b).unwrap());
                let (a, b) = (self.put(a, &p), self.put(b, &q));
                self.push(RNode::Concat(a, b), &p.plus(&q, 1))
            }
            Rx::Bool(v) => self.push(RNode::Bool(*v), &one),
            Rx::And(a, b) => {
                let (a, b) = (self.put(a, &one), self.put(b, &one));
                self.push(RNode::And(a, b), &one)
            }
            Rx::Or(a, b) => {
                let (a, b) = (self.put(a, &one), self.put(b, &one));
                self.push(RNode::Or(a, b), &one)
            }
            Rx::Fact(p, a, b) => {
                let n = self.width_said(a).unwrap();
                let a = self.put(a, &n);
                let b = b.as_ref().map(|b| self.put(b, &n));
                self.push(RNode::Fact(*p, a, b), &one)
            }
            Rx::ConstP(p, a) => {
                let n = self.width_said(a).unwrap();
                let a = self.put(a, &n);
                self.push(RNode::ConstP(*p, a), &one)
            }
        }
    }
}

/// The rule that `src` writes.
fn rule(src: &str) -> Rule {
    let mut p = RuleText {
        toks: rule_tokens(src),
        at: 0,
        vars: Vec::new(),
        params: Vec::new(),
        lets: Vec::new(),
        nodes: Vec::new(),
        widths: Vec::new(),
        let_nodes: Vec::new(),
    };
    let kind = match p.next().as_str() {
        "rule" => RuleKind::Rewrite,
        "identity" => RuleKind::Identity,
        t => panic!("{t}"),
    };
    let name = p.next();
    if p.peek() == "<" {
        loop {
            p.next();
            if p.peek() == "(" {
                break;
            }
            let v = p.next();
            p.vars.push(v);
            if p.peek() == ">" {
                p.next();
                break;
            }
        }
    }
    p.want("(");
    while p.peek() != ")" {
        let n = p.next();
        p.want(":");
        let kind = if p.peek() == "const" {
            p.next();
            ParamKind::Const
        } else {
            ParamKind::Any
        };
        let w = p.width();
        p.params.push((n, w, kind));
        if p.peek() == "," {
            p.next();
        }
    }
    p.want(")");
    let mut wheres = Vec::new();
    if p.peek() == "where" {
        p.next();
        loop {
            let a = p.width();
            let rel = p.next();
            let b = p.width();
            let (left, rel, right) = match rel.as_str() {
                "<" => (a, WRel::Lt, b),
                "<=" => (a, WRel::Le, b),
                "==" => (a, WRel::Eq, b),
                ">" => (b, WRel::Lt, a),
                ">=" => (b, WRel::Le, a),
                t => panic!("{t}"),
            };
            wheres.push(Where { left: left.wexpr(), rel, right: right.wexpr() });
            if p.peek() != "," {
                break;
            }
            p.next();
        }
    }
    p.want("{");
    let lhs = p.expr(0);
    let arrow = p.next();
    assert!(arrow == "=>" || arrow == "<=>", "{arrow}");
    let rhs = p.expr(0);
    let guard = if p.peek() == "if" {
        p.next();
        Some(p.expr(0))
    } else {
        None
    };
    let mut lets = Vec::new();
    while p.peek() == "let" {
        p.next();
        let n = p.next();
        p.want(":");
        let w = p.width();
        p.want("=");
        let e = p.expr(0);
        p.lets.push((n, w.clone()));
        lets.push((e, w));
    }
    p.want("}");
    for (e, w) in &lets {
        let n = p.put(e, w);
        p.let_nodes.push(n);
    }
    let w = p.width_said(&lhs).or_else(|| p.width_said(&rhs)).unwrap();
    let l = p.put(&lhs, &w);
    let r = p.put(&rhs, &w);
    let one = p.konst(1);
    let g = guard.map(|g| p.put(&g, &one));
    let out = Rule {
        name: format!("t::{name}"),
        id: RuleId { hi: 0x7e57, lo: src.len() as u64 },
        kind,
        width_vars: p.vars.clone(),
        wheres,
        params: p
            .params
            .iter()
            .map(|q| Param { name: q.0.clone(), width: q.1.wexpr(), kind: q.2 })
            .collect(),
        nodes: p.nodes,
        widths: p.widths,
        lhs: l,
        rhs: r,
        guard: g,
        lets: p.let_nodes,
        decreasing: true,
        float_values: false,
    };
    assert!(out.valid(), "{src}");
    out
}

fn check_one(body: &str) -> RuleCheck {
    check_rule(&rule(body), &CheckConfig::default())
}

/// What `rule` makes of `src`, if it applies: that it does not, or whether it gives `want`.
fn applies(rule: &Rule, src: &str, want: &str, w: u16) -> Option<bool> {
    let mut cx = Context::new();
    let o = ParseOptions::width(Width::new(w).unwrap());
    let e = cx.parse(src, &o).unwrap();
    let want = cx.parse(want, &o).unwrap();
    match check_examples(&mut cx, rule, &vec![(e, want)]).pop() {
        None => Some(true),
        Some(ExampleFailure::Differs { .. }) => Some(false),
        Some(_) => None,
    }
}

// ----- text ---------------------------------------------------------------------------------------

/// The key of a symbol: its name, of at most eight letters.
fn key(name: &str) -> u64 {
    assert!(!name.is_empty() && name.len() <= 8, "{name}");
    name.bytes().fold(0u64, |k, b| (k << 8) | u64::from(b))
}

fn name_of(key: u64) -> String {
    key.to_be_bytes().iter().filter(|b| **b != 0).map(|b| *b as char).collect()
}

/// The width of symbols and numbers that say none.
struct ParseOptions {
    width: u16,
}

impl ParseOptions {
    fn width(w: Width) -> ParseOptions {
        ParseOptions { width: w.bits() }
    }
}

#[derive(Clone, Debug)]
enum Ast {
    Num(u128, Option<u16>),
    Sym(String, Option<u16>),
    Un(UnOp, Box<Ast>),
    Bin(BinOp, Box<Ast>, Box<Ast>),
    Rel(CmpOpExt, Box<Ast>, Box<Ast>),
    Zext(u16, Box<Ast>),
    Sext(u16, Box<Ast>),
    Extract(u16, u16, Box<Ast>),
    Concat(Box<Ast>, Box<Ast>),
    Select(Box<Ast>, Box<Ast>, Box<Ast>),
}

fn tokens(src: &str) -> Vec<String> {
    let s: Vec<char> = src.chars().collect();
    let mut out = Vec::new();
    let mut i = 0;
    while i < s.len() {
        let c = s[i];
        if c.is_whitespace() {
            i += 1;
            continue;
        }
        let start = i;
        if c.is_alphanumeric() || c == '_' || c == '%' {
            i += 1;
            while i < s.len() && (s[i].is_alphanumeric() || s[i] == '_') {
                i += 1;
            }
        } else {
            let mut n = 1;
            for op in [">>u", ">>s", "<=u", "<=s", ">=u", ">=s", "<<", "==", "!=", "<u", "<s", ">u", ">s"] {
                let o: Vec<char> = op.chars().collect();
                if s[i..].starts_with(&o) {
                    n = o.len();
                    break;
                }
            }
            i += n;
        }
        out.push(s[start..i].iter().collect());
    }
    out
}

struct Parser {
    toks: Vec<String>,
    at: usize,
    lets: HashMap<String, Ast>,
}

impl Parser {
    fn peek(&self) -> &str {
        self.toks.get(self.at).map(|s| s.as_str()).unwrap_or("")
    }

    fn next(&mut self) -> String {
        let t = self.peek().to_string();
        self.at += 1;
        t
    }

    fn want(&mut self, t: &str) {
        let got = self.next();
        assert_eq!(got, t, "in {:?}", self.toks);
    }

    fn number(&mut self) -> u16 {
        self.next().parse().unwrap()
    }

    fn program(&mut self) -> Ast {
        while self.peek() == "let" {
            self.next();
            let name = self.next();
            self.want("=");
            let a = self.expr(0);
            self.want(";");
            self.lets.insert(name, a);
        }
        let a = self.expr(0);
        assert_eq!(self.at, self.toks.len(), "rest of {:?}", self.toks);
        a
    }

    fn expr(&mut self, level: usize) -> Ast {
        if level == 6 {
            return self.unary();
        }
        let mut a = self.expr(level + 1);
        loop {
            let rel = match self.peek() {
                "==" => Some(CmpOpExt::Eq),
                "!=" => Some(CmpOpExt::Ne),
                "<u" => Some(CmpOpExt::Ult),
                "<=u" => Some(CmpOpExt::Ule),
                ">u" => Some(CmpOpExt::Ugt),
                ">=u" => Some(CmpOpExt::Uge),
                "<s" => Some(CmpOpExt::Slt),
                "<=s" => Some(CmpOpExt::Sle),
                ">s" => Some(CmpOpExt::Sgt),
                ">=s" => Some(CmpOpExt::Sge),
                _ => None,
            };
            if let (0, Some(op)) = (level, rel) {
                self.next();
                let b = self.expr(level + 1);
                a = Ast::Rel(op, Box::new(a), Box::new(b));
                continue;
            }
            let op = match (level, self.peek()) {
                (1, "|") => BinOp::Or,
                (2, "^") => BinOp::Xor,
                (3, "&") => BinOp::And,
                (4, "<<") => BinOp::Shl,
                (4, ">>u") => BinOp::LShr,
                (4, ">>s") => BinOp::AShr,
                (5, "+") => BinOp::Add,
                (5, "-") => BinOp::Sub,
                _ => return a,
            };
            self.next();
            let b = self.expr(level + 1);
            a = Ast::Bin(op, Box::new(a), Box::new(b));
        }
    }

    fn unary(&mut self) -> Ast {
        let mut a = self.atom();
        while self.peek() == "*" {
            self.next();
            let b = self.atom();
            a = Ast::Bin(BinOp::Mul, Box::new(a), Box::new(b));
        }
        a
    }

    fn call(&mut self) -> Vec<Ast> {
        self.want("(");
        let mut args = Vec::new();
        loop {
            args.push(self.expr(0));
            if self.next() == ")" {
                return args;
            }
        }
    }

    fn colon(&mut self) -> Option<u16> {
        if self.peek() == ":" {
            self.next();
            Some(self.number())
        } else {
            None
        }
    }

    fn atom(&mut self) -> Ast {
        let t = self.next();
        match t.as_str() {
            "(" => {
                let a = self.expr(0);
                self.want(")");
                return a;
            }
            "~" => return Ast::Un(UnOp::Not, Box::new(self.atom())),
            "-" => return Ast::Un(UnOp::Neg, Box::new(self.atom())),
            "true" => return Ast::Num(1, Some(1)),
            "false" => return Ast::Num(0, Some(1)),
            _ => {}
        }
        if t.starts_with(|c: char| c.is_ascii_digit()) {
            let v = match t.strip_prefix("0x") {
                Some(h) => u128::from_str_radix(h, 16).unwrap(),
                None => t.parse().unwrap(),
            };
            let w = self.colon();
            return Ast::Num(v, w);
        }
        if self.peek() == "<" {
            self.next();
            let n = self.number();
            let m = if self.peek() == "," {
                self.next();
                Some(self.number())
            } else {
                None
            };
            self.want(">");
            let a = Box::new(self.call().remove(0));
            return match t.as_str() {
                "zext" => Ast::Zext(n, a),
                "sext" => Ast::Sext(n, a),
                "trunc" => Ast::Extract(0, n, a),
                "extract" => Ast::Extract(n, m.unwrap(), a),
                _ => panic!("{t}"),
            };
        }
        if self.peek() == "(" {
            let mut args = self.call();
            let mut arg = || Box::new(args.remove(0));
            return match t.as_str() {
                "select" => Ast::Select(arg(), arg(), arg()),
                "concat" => Ast::Concat(arg(), arg()),
                "udiv" => Ast::Bin(BinOp::UDiv, arg(), arg()),
                "urem" => Ast::Bin(BinOp::URem, arg(), arg()),
                "sdiv" => Ast::Bin(BinOp::SDiv, arg(), arg()),
                "srem" => Ast::Bin(BinOp::SRem, arg(), arg()),
                "rotl" => Ast::Bin(BinOp::RotL, arg(), arg()),
                "rotr" => Ast::Bin(BinOp::RotR, arg(), arg()),
                "popcnt" => Ast::Un(UnOp::Popcnt, arg()),
                "clz" => Ast::Un(UnOp::Clz, arg()),
                "ctz" => Ast::Un(UnOp::Ctz, arg()),
                "bswap" => Ast::Un(UnOp::Bswap, arg()),
                "bitrev" => Ast::Un(UnOp::BitRev, arg()),
                _ => panic!("{t}"),
            };
        }
        if let Some(a) = self.lets.get(&t) {
            return a.clone();
        }
        let w = self.colon();
        Ast::Sym(t, w)
    }
}

/// The width of an expression, where its text says it.
fn width_said(a: &Ast, known: &HashMap<String, u16>) -> Option<u16> {
    match a {
        Ast::Num(_, w) => *w,
        Ast::Sym(n, w) => w.or(known.get(n).copied()),
        Ast::Un(_, a) => width_said(a, known),
        Ast::Bin(_, a, b) => width_said(a, known).or(width_said(b, known)),
        Ast::Rel(..) => Some(1),
        Ast::Zext(n, _) | Ast::Sext(n, _) => Some(*n),
        Ast::Extract(_, n, _) => Some(*n),
        Ast::Concat(a, b) => Some(width_said(a, known)? + width_said(b, known)?),
        Ast::Select(_, a, b) => width_said(a, known).or(width_said(b, known)),
    }
}

fn note_widths(a: &Ast, known: &mut HashMap<String, u16>) {
    match a {
        Ast::Num(..) => {}
        Ast::Sym(n, w) => {
            if let Some(w) = w {
                known.insert(n.clone(), *w);
            }
        }
        Ast::Un(_, a) | Ast::Zext(_, a) | Ast::Sext(_, a) | Ast::Extract(_, _, a) => note_widths(a, known),
        Ast::Bin(_, a, b) | Ast::Rel(_, a, b) | Ast::Concat(a, b) => {
            note_widths(a, known);
            note_widths(b, known);
        }
        Ast::Select(a, b, c) => {
            note_widths(a, known);
            note_widths(b, known);
            note_widths(c, known);
        }
    }
}

fn bits_of(w: u16, v: u128) -> BitVec {
    BitVec::from_bools((0..w).map(|i| i < 128 && (v >> i) & 1 == 1).collect())
}

fn elaborate(cx: &mut Context, a: &Ast, w: u16, dflt: u16, known: &HashMap<String, u16>) -> Expr {
    let wd = |n: u16| Width::new(n).unwrap();
    match a {
        Ast::Num(v, n) => cx.constant(&bits_of(n.unwrap_or(w), *v)).unwrap(),
        Ast::Sym(s, n) => {
            let n = n.or(known.get(s).copied()).unwrap_or(w);
            cx.symbol(key(s), wd(n)).unwrap()
        }
        Ast::Un(op, a) => {
            let a = elaborate(cx, a, w, dflt, known);
            cx.un(*op, a).unwrap()
        }
        Ast::Bin(op, a, b) => {
            let n = width_said(a, known).or(width_said(b, known)).unwrap_or(w);
            let a = elaborate(cx, a, n, dflt, known);
            let b = elaborate(cx, b, n, dflt, known);
            cx.bin(*op, a, b).unwrap()
        }
        Ast::Rel(op, a, b) => {
            let n = width_said(a, known).or(width_said(b, known)).unwrap_or(dflt);
            let a = elaborate(cx, a, n, dflt, known);
            let b = elaborate(cx, b, n, dflt, known);
            cx.compare(*op, a, b).unwrap()
        }
        Ast::Zext(n, a) => {
            let k = width_said(a, known).unwrap_or(dflt);
            let a = elaborate(cx, a, k, dflt, known);
            cx.zext(a, wd(*n)).unwrap()
        }
        Ast::Sext(n, a) => {
            let k = width_said(a, known).unwrap_or(dflt);
            let a = elaborate(cx, a, k, dflt, known);
            cx.sext(a, wd(*n)).unwrap()
        }
        Ast::Extract(lo, n, a) => {
            let k = width_said(a, known).unwrap_or(dflt);
            let a = elaborate(cx, a, k, dflt, known);
            cx.extract(a, *lo, wd(*n)).unwrap()
        }
        Ast::Concat(a, b) => {
            let k = width_said(a, known).unwrap_or(dflt);
            let a = elaborate(cx, a, k, dflt, known);
            let k = width_said(b, known).unwrap_or(dflt);
            let b = elaborate(cx, b, k, dflt, known);
            cx.concat(a, b).unwrap()
        }
        Ast::Select(c, a, b) => {
            let n = width_said(a, known).or(width_said(b, known)).unwrap_or(w);
            let c = elaborate(cx, c, 1, dflt, known);
            let a = elaborate(cx, a, n, dflt, known);
            let b = elaborate(cx, b, n, dflt, known);
            cx.select(c, a, b).unwrap()
        }
    }
}

fn operands(v: &NodeView) -> Vec<Expr> {
    match *v {
        NodeView::Const | NodeView::Sym(_) => vec![],
        NodeView::Un(_, a) | NodeView::Zext(a) | NodeView::Sext(a) | NodeView::Extract(a, _) => vec![a],
        NodeView::Bin(_, a, b) | NodeView::Cmp(_, a, b) | NodeView::Concat(a, b) => vec![a, b],
        NodeView::Select(a, b, c) => vec![a, b, c],
    }
}

/// The nodes of `roots`, operands first.
fn nodes_of(cx: &Context, roots: &[Expr]) -> Vec<Expr> {
    let mut out = Vec::new();
    let mut seen = HashSet::new();
    let mut stack: Vec<(Expr, bool)> = roots.iter().rev().map(|e| (*e, false)).collect();
    while let Some((e, done)) = stack.pop() {
        if done {
            out.push(e);
        } else if seen.insert(e) {
            stack.push((e, true));
            for k in operands(&cx.view(e).unwrap()).into_iter().rev() {
                stack.push((k, false));
            }
        }
    }
    out
}

/// A constant, as a signed number where it has more than one bit.
fn const_text(v: &BitVec) -> String {
    let w = v.len();
    let bit = |i: usize| v.bit(i).unwrap();
    if w > 1 && bit(w - 1) && w <= 120 {
        let mut m: i128 = -1;
        for i in 0..w {
            if !bit(i) {
                m -= 1 << i;
            }
        }
        return format!("{m}");
    }
    if (0..w).all(bit) && w > 1 {
        return "-1".to_string();
    }
    let top = (0..w).rev().find(|i| bit(*i)).unwrap_or(0);
    if top < 127 {
        let mut m: u128 = 0;
        for i in 0..=top {
            if bit(i) {
                m += 1 << i;
            }
        }
        return format!("{m}");
    }
    let mut s = String::new();
    for d in (0..=top / 4).rev() {
        let x = (0..4).filter(|i| d * 4 + i < w && bit(d * 4 + i)).map(|i| 1u32 << i).sum::<u32>();
        s.push(char::from_digit(x, 16).unwrap());
    }
    format!("0x{s}")
}

struct Shower<'a> {
    cx: &'a Context,
    names: HashMap<Expr, String>,
}

impl Shower<'_> {
    fn is_const(&self, e: Expr) -> bool {
        matches!(self.cx.view(e).unwrap(), NodeView::Const)
    }

    fn full(&self, e: Expr) -> String {
        match self.cx.as_const(e).unwrap() {
            Some(v) => format!("{}:{}", const_text(&v), v.len()),
            None => self.text(e, true),
        }
    }

    /// An operand beside another one that tells its width.
    fn side(&self, e: Expr, parens: bool) -> String {
        match self.cx.as_const(e).unwrap() {
            Some(v) => const_text(&v),
            None => {
                let infix = matches!(self.cx.view(e).unwrap(), NodeView::Bin(op, ..) if infix(op).is_some())
                    || matches!(self.cx.view(e).unwrap(), NodeView::Cmp(..));
                if parens && infix && !self.names.contains_key(&e) {
                    format!("({})", self.text(e, true))
                } else {
                    self.text(e, true)
                }
            }
        }
    }

    fn text(&self, e: Expr, named: bool) -> String {
        if named {
            if let Some(n) = self.names.get(&e) {
                return n.clone();
            }
        }
        let w = self.cx.width(e).unwrap().bits();
        match self.cx.view(e).unwrap() {
            NodeView::Const => self.full(e),
            NodeView::Sym(k) => name_of(k),
            NodeView::Un(op, a) => match op {
                UnOp::Not => format!("~{}", self.side(a, true)),
                UnOp::Neg => format!("-{}", self.side(a, true)),
                UnOp::Popcnt => format!("popcnt({})", self.full(a)),
                UnOp::Clz => format!("clz({})", self.full(a)),
                UnOp::Ctz => format!("ctz({})", self.full(a)),
                UnOp::Bswap => format!("bswap({})", self.full(a)),
                UnOp::BitRev => format!("bitrev({})", self.full(a)),
            },
            NodeView::Bin(op, a, b) => match infix(op) {
                Some(o) => {
                    let chain = matches!(op, BinOp::Add | BinOp::Mul | BinOp::And | BinOp::Or | BinOp::Xor);
                    let same = matches!(self.cx.view(a).unwrap(), NodeView::Bin(p, ..) if p == op) && chain;
                    let sum = matches!(op, BinOp::Add | BinOp::Sub);
                    let product = |e: Expr| sum && matches!(self.cx.view(e).unwrap(), NodeView::Bin(BinOp::Mul, ..));
                    format!("{} {o} {}", self.side(a, !same && !product(a)), self.side(b, !product(b)))
                }
                None => {
                    let f = match op {
                        BinOp::UDiv => "udiv",
                        BinOp::URem => "urem",
                        BinOp::SDiv => "sdiv",
                        BinOp::SRem => "srem",
                        BinOp::RotL => "rotl",
                        _ => "rotr",
                    };
                    format!("{f}({}, {})", self.full(a), self.full(b))
                }
            },
            NodeView::Cmp(op, a, b) => {
                let o = match op {
                    CmpOp::Eq => "==",
                    CmpOp::Ne => "!=",
                    CmpOp::Ult => "<u",
                    CmpOp::Ule => "<=u",
                    CmpOp::Slt => "<s",
                    CmpOp::Sle => "<=s",
                };
                format!("{} {o} {}", self.side(a, true), self.side(b, true))
            }
            NodeView::Zext(a) => format!("zext<{w}>({})", self.full(a)),
            NodeView::Sext(a) => format!("sext<{w}>({})", self.full(a)),
            NodeView::Extract(a, 0) => format!("trunc<{w}>({})", self.full(a)),
            NodeView::Extract(a, lo) => format!("extract<{lo}, {w}>({})", self.full(a)),
            NodeView::Concat(a, b) => format!("concat({}, {})", self.full(a), self.full(b)),
            NodeView::Select(c, a, b) => {
                format!("select({}, {}, {})", self.full(c), self.full(a), self.full(b))
            }
        }
    }
}

fn infix(op: BinOp) -> Option<&'static str> {
    Some(match op {
        BinOp::Add => "+",
        BinOp::Sub => "-",
        BinOp::Mul => "*",
        BinOp::And => "&",
        BinOp::Or => "|",
        BinOp::Xor => "^",
        BinOp::Shl => "<<",
        BinOp::LShr => ">>u",
        BinOp::AShr => ">>s",
        _ => return None,
    })
}

/// Expressions as text.
trait Text {
    fn sym(&mut self, name: &str, w: Width) -> Result<Expr, Error>;
    fn parse(&mut self, src: &str, o: &ParseOptions) -> Result<Expr, Error>;
    fn display(&self, e: Expr) -> String;
    fn cmp(&mut self, op: CmpOpExt, a: Expr, b: Expr) -> Result<Expr, Error>;
}

impl Text for Context {
    fn sym(&mut self, name: &str, w: Width) -> Result<Expr, Error> {
        self.symbol(key(name), w)
    }

    fn parse(&mut self, src: &str, o: &ParseOptions) -> Result<Expr, Error> {
        let mut p = Parser { toks: tokens(src), at: 0, lets: HashMap::new() };
        let a = p.program();
        let mut known = HashMap::new();
        note_widths(&a, &mut known);
        let w = width_said(&a, &known).unwrap_or(o.width);
        Ok(elaborate(self, &a, w, o.width, &known))
    }

    fn display(&self, e: Expr) -> String {
        let all = nodes_of(self, &[e]);
        let mut uses: HashMap<Expr, usize> = HashMap::new();
        for n in &all {
            for k in operands(&self.view(*n).unwrap()) {
                *uses.entry(k).or_insert(0) += 1;
            }
        }
        let mut s = Shower { cx: self, names: HashMap::new() };
        let mut out = String::new();
        for n in &all {
            if uses.get(n).copied().unwrap_or(0) > 1 && !operands(&self.view(*n).unwrap()).is_empty() {
                let name = format!("%{}", s.names.len());
                out.push_str(&format!("let {name} = {};\n", s.text(*n, false)));
                s.names.insert(*n, name);
            }
        }
        out + &s.full(e)
    }

    fn cmp(&mut self, op: CmpOpExt, a: Expr, b: Expr) -> Result<Expr, Error> {
        self.compare(op, a, b)
    }
}

// ----- random expressions -------------------------------------------------------------------------

const RELS: [CmpOpExt; 10] = [
    CmpOpExt::Eq,
    CmpOpExt::Ne,
    CmpOpExt::Ult,
    CmpOpExt::Ule,
    CmpOpExt::Ugt,
    CmpOpExt::Uge,
    CmpOpExt::Slt,
    CmpOpExt::Sle,
    CmpOpExt::Sgt,
    CmpOpExt::Sge,
];

const UNS: [UnOp; 6] = [UnOp::Not, UnOp::Neg, UnOp::Popcnt, UnOp::Clz, UnOp::Ctz, UnOp::BitRev];

const BINS: [BinOp; 15] = [
    BinOp::Add,
    BinOp::Sub,
    BinOp::Mul,
    BinOp::UDiv,
    BinOp::URem,
    BinOp::SDiv,
    BinOp::SRem,
    BinOp::And,
    BinOp::Or,
    BinOp::Xor,
    BinOp::Shl,
    BinOp::LShr,
    BinOp::AShr,
    BinOp::RotL,
    BinOp::RotR,
];

struct Rng(u64);

impl Rng {
    fn next(&mut self) -> u64 {
        self.0 = self.0.wrapping_add(0x9e37_79b9_7f4a_7c15);
        let mut z = self.0;
        z = (z ^ (z >> 30)).wrapping_mul(0xbf58_476d_1ce4_e5b9);
        z = (z ^ (z >> 27)).wrapping_mul(0x94d0_49bb_1331_11eb);
        z ^ (z >> 31)
    }

    fn below(&mut self, n: u64) -> u64 {
        self.next() % n
    }

    fn chance(&mut self, a: u64, b: u64) -> bool {
        self.below(b) < a
    }

    fn value(&mut self, w: u16) -> BitVec {
        let v: Vec<bool> = match self.below(6) {
            0 => vec![false; w as usize],
            1 => vec![true; w as usize],
            2 => {
                let k = self.below(u64::from(w)) as u16;
                (0..w).map(|i| i == k).collect()
            }
            3 => {
                let x = self.below(16);
                (0..w).map(|i| i < 8 && (x >> i) & 1 == 1).collect()
            }
            _ => (0..w).map(|_| self.chance(1, 2)).collect(),
        };
        BitVec::from_bools(v)
    }
}

struct Gen {
    rng: Rng,
    max_w: u16,
}

fn generator(seed: u64) -> Gen {
    Gen { rng: Rng(seed), max_w: 6 }
}

impl Gen {
    fn constant(&mut self, w: u16) -> BitVec {
        self.rng.value(w)
    }

    /// A random expression of `w` bits over every operator.
    fn expr(&mut self, cx: &mut Context, w: u16, depth: u32) -> (Expr, u32) {
        let width = Width::new(w).unwrap();
        if depth == 0 || self.rng.chance(1, 6) {
            let e = if self.rng.chance(1, 4) {
                let v = self.constant(w);
                cx.constant(&v).unwrap()
            } else {
                let n = ["a", "b", "c"][self.rng.below(3) as usize];
                cx.sym(&format!("{n}{w}"), width).unwrap()
            };
            return (e, depth);
        }
        let d = depth - 1;
        let e = match self.rng.below(10) {
            0 => {
                let a = self.expr(cx, w, d).0;
                cx.un(UNS[self.rng.below(6) as usize], a).unwrap()
            }
            1 if w > 1 => {
                let n = 1 + self.rng.below(u64::from(w) - 1) as u16;
                let a = self.expr(cx, n, d).0;
                if self.rng.chance(1, 2) {
                    cx.zext(a, width).unwrap()
                } else {
                    cx.sext(a, width).unwrap()
                }
            }
            2 if w < self.max_w => {
                let n = w + 1 + self.rng.below(u64::from(self.max_w - w)) as u16;
                let a = self.expr(cx, n, d).0;
                let lo = self.rng.below(u64::from(n - w) + 1) as u16;
                cx.extract(a, lo, width).unwrap()
            }
            3 if w > 1 => {
                let n = 1 + self.rng.below(u64::from(w) - 1) as u16;
                let (a, b) = (self.expr(cx, n, d).0, self.expr(cx, w - n, d).0);
                cx.concat(a, b).unwrap()
            }
            4 => {
                let c = self.expr(cx, 1, d).0;
                let (a, b) = (self.expr(cx, w, d).0, self.expr(cx, w, d).0);
                cx.select(c, a, b).unwrap()
            }
            5 if w == 1 => {
                let n = 1 + self.rng.below(u64::from(self.max_w)) as u16;
                let (a, b) = (self.expr(cx, n, d).0, self.expr(cx, n, d).0);
                cx.compare(RELS[self.rng.below(10) as usize], a, b).unwrap()
            }
            _ => {
                let (a, b) = (self.expr(cx, w, d).0, self.expr(cx, w, d).0);
                cx.bin(BINS[self.rng.below(15) as usize], a, b).unwrap()
            }
        };
        (e, depth)
    }
}

/// The symbols of two expressions, with their widths.
fn symbols(cx: &Context, roots: &[Expr]) -> BTreeMap<u64, u16> {
    let mut out = BTreeMap::new();
    for e in nodes_of(cx, roots) {
        if let NodeView::Sym(k) = cx.view(e).unwrap() {
            out.insert(k, cx.width(e).unwrap().bits());
        }
    }
    out
}

/// Whether two expressions agree: everywhere where their symbols have few bits, else at some
/// values.
fn equivalent(cx: &mut Context, a: Expr, b: Expr, rng: &mut Rng) -> bool {
    if a == b {
        return true;
    }
    let syms: Vec<(u64, u16)> = symbols(cx, &[a, b]).into_iter().collect();
    let total: u32 = syms.iter().map(|s| u32::from(s.1)).sum();
    let agree = |env: &Vec<(u64, BitVec)>| cx.eval(a, env).unwrap().same(&cx.eval(b, env).unwrap());
    if total <= 9 {
        for x in 0..(1u64 << total) {
            let mut at = 0;
            let mut env = Vec::new();
            for (k, w) in &syms {
                env.push((*k, bits_of(*w, u128::from(x >> at) & ((1 << w) - 1))));
                at += w;
            }
            if !agree(&env) {
                return false;
            }
        }
        return true;
    }
    for _ in 0..40 {
        let env: Vec<(u64, BitVec)> = syms.iter().map(|(k, w)| (*k, rng.value(*w))).collect();
        if !agree(&env) {
            return false;
        }
    }
    true
}

/// How many nodes `roots` have together.
fn dag(cx: &mut Context, roots: &[Expr]) -> u32 {
    nodes_of(cx, roots).len() as u32
}

/// An engine running `phases` with the default verification: the tests' own equivalence
/// checks are the oracle (strict verification would reject a wrong rewrite before any test
/// could see it).
fn engine(phases: Vec<Phase>) -> Engine {
    Engine::builder().builtin().strategy(Strategy::new("t", phases)).build().unwrap()
}

fn simplify(eng: &Engine, src: &str, w: u16) -> String {
    let mut cx = Context::new();
    let e = cx.parse(src, &ParseOptions::width(Width::new(w).unwrap())).unwrap();
    let out = eng.simplify(&mut cx, e).unwrap();
    cx.display(out.expr).to_string()
}

/// Checks what `eng` makes of `src`.
fn becomes(eng: &Engine, src: &str, want: &str, w: u16) {
    let mut cx = Context::new();
    let o = ParseOptions::width(Width::new(w).unwrap());
    let e = cx.parse(src, &o).unwrap();
    let want = cx.parse(want, &o).unwrap();
    let out = eng.simplify(&mut cx, e).unwrap();
    assert_eq!(out.expr, want, "{src}: got {}", cx.display(out.expr));
}

#[test]
fn sound_rules_pass() {
    for body in [
        "identity add_and_or<W>(x: W, y: W) { (x & y) + (x | y) <=> x + y }",
        "identity xor_and<W>(x: W, y: W) { (x ^ y) + 2 * (x & y) <=> x + y }",
        "rule and_absorb<W>(x: W, y: W) { x & (x | y) => x }",
        "rule neg_not<W>(x: W) { -(~x) => x + 1 }",
        "rule not_neg<W>(x: W) { ~(-x) => x - 1 }",
        "rule mul_pow2<W>(x: W, c: const W) { x * c => x << k if is_pow2(c) let k: W = ctz(c) }",
        "rule mask_redundant<W>(x: W, c: const W) { x & c => x if zero_bits(x, ~c) }",
        "rule add_disjoint<W>(x: W, y: W) { x + y => x | y if disjoint(x, y) }",
        "rule eq_eq_distinct<W>(a: W, b: W, c: W) { (a == b) & (a == c) => false if proves(b != c) }",
        "rule sext_from_sign_word<W, U>(a: W) where W < U, U <= 2 * W { \
            zext<U>(a) | (zext<U>(a >>s (W - 1)) << W) => sext<U>(a) }",
        "rule divmod<W>(x: W, y: W) { sdiv(x, y) * y + srem(x, y) => x }",
        "rule zext_trunc<W, N>(x: W) where N < W { zext<W>(trunc<N>(x)) => x & lowmask(N) }",
        "rule ult_zero<W>(x: W) { x <u 1 => x == 0 }",
    ] {
        let c = check_one(body);
        assert!(c.is_sound(), "{body}\n{:?}\n{:?}", c.verdict, c.evidence);
        assert!(
            c.evidence.exhaustive_cases > 0 && c.evidence.guard_true_cases() > 0,
            "{body}"
        );
    }
}

#[test]
fn unsound_rules_are_refuted() {
    for (body, why) in [
        (
            "rule sext_unbounded<W, U>(a: W) where W < U { \
                zext<U>(a) | (zext<U>(a >>s (W - 1)) << W) => sext<U>(a) }",
            "missing U <= 2W",
        ),
        (
            "rule eq_eq_adjacent<W>(a: W, b: const W, c: const W) { \
                (a == b) & (a == c) => false if b <=s c - 1 }",
            "c - 1 wraps at the signed minimum",
        ),
        (
            "rule inc_below<W>(x: W) { (x + 1) <u x => false }",
            "wraps at all ones",
        ),
        (
            "rule shl_lshr<W>(x: W, c: const W) { (x << c) >>u c => x }",
            "loses high bits",
        ),
        (
            "rule udiv_self<W>(x: W) { udiv(x, x) => 1 }",
            "udiv(0, 0) = ones",
        ),
        (
            "rule rotl_rotl<W>(x: W, a: const W, b: const W) { rotl(rotl(x, a), b) => rotl(x, a + b) }",
            "a + b wraps mod 2^W, not mod W",
        ),
        (
            "rule mask_wrong<W>(x: W, c: const W) { x & c => x if zero_bits(x, c) }",
            "wrong mask",
        ),
        (
            "identity sub_comm<W>(x: W, y: W) { x - y <=> y - x }",
            "not commutative",
        ),
    ] {
        let c = check_one(body);
        match &c.verdict {
            Verdict::Unsound(cex) => {
                // The counterexample really is one.
                assert!(!cex.lhs.same(&cex.rhs), "{body}");
            }
            v => panic!("{why}: expected a counterexample for\n{body}\ngot {v:?}"),
        }
    }
}

#[test]
fn counterexamples_are_small_and_readable() {
    let c = check_one("rule udiv_self<W>(x: W) { udiv(x, x) => 1 }");
    let Verdict::Unsound(cex) = c.verdict else {
        panic!()
    };
    // At W = 1, udiv(0, 0) = ones = 1: the first counterexample is at W = 2.
    assert_eq!(cex.widths, vec![("W".to_string(), 2)]);
    assert_eq!(cex.params[0].1.to_u64(), Some(0));
    assert_eq!(cex.text(), "W = 2; x = 0x0:2: lhs = 0x3:2, rhs = 0x1:2");
}

#[test]
fn where_constraints_hold_at_application() {
    let r = rule(
        "rule sext_from_sign_word<W, U>(a: W) where W < U, U <= 2 * W { \
            zext<U>(a) | (zext<U>(a >>s (W - 1)) << W) => sext<U>(a) }",
    );
    // U = 16 > 2W: the rule does not apply (it would be wrong there).
    assert_eq!(applies(&r, "zext<16>(p) | (zext<16>(p >>s 3) << 4)", "sext<16>(p)", 4), None);
    // U = 8 = 2W: it does.
    assert_eq!(applies(&r, "zext<8>(p) | (zext<8>(p >>s 3) << 4)", "sext<8>(p)", 4), Some(true));
}

#[test]
fn closed_subterms_only_match_where_checked() {
    // `k` is 1 for W > 4 and 0 at W = 4, where `zext<4>(1:4)` is not a node the builder makes,
    // so the checker skips W = 4; the matcher must skip it too.
    let r = rule(
        "rule z<W>(x: W, y: W) where W >= 4 { (x & zext<W>(1:4)) ^ (y & zext<W>(1:4)) => (x ^ y) & k \
         let k: W = zext<W>(W:16 != 4:16) }",
    );
    let c = check_rule(&r, &CheckConfig::default());
    assert!(c.is_sound(), "{:?}", c.verdict);
    assert_eq!(applies(&r, "(p & 1) ^ (q & 1)", "p", 4), None, "rewrote at an unchecked width");
    assert_eq!(applies(&r, "(p & 1) ^ (q & 1)", "(p ^ q) & 1", 8), Some(true));
}

#[test]
fn sound_needs_the_guard_to_hold_in_both_tiers() {
    // The guard never holds at the exhaustive widths: not Sound.
    let c = check_one(
        "rule bad<W>(x: W, y: W) where W >= 3 { x ^ y => x if (W:16 >=u 20:16) && proves(y == k) let k: W = (ones >>u 3) - W }",
    );
    assert!(!c.is_sound(), "{:?} {:?}", c.verdict, c.evidence);
    // A rule true at small widths and false at a wide one whose guard needs a specific value:
    // steered sampling finds the counterexample.
    // (`k` is 0 up to W = 16, then an unremarkable value no unsteered sample hits.)
    let c = check_one(
        "rule bad2<W>(x: W, y: W) where W >= 6 { x ^ y => x if proves(y == k) let k: W = ((ones >>u 16) * 37) << 1 }",
    );
    assert!(
        matches!(c.verdict, Verdict::Unsound(_)),
        "{:?} {:?}",
        c.verdict,
        c.evidence
    );
    // Sound everywhere, but the guard only holds above the exhaustive widths: inconclusive.
    let c = check_one("rule wide<W>(x: W) { x & x => x if W:16 >=u 20:16 }");
    assert!(matches!(
        c.verdict,
        Verdict::Inconclusive("the guard never held in the exhaustive tier")
    ));
    // ... and the converse: a guard that only holds at small widths says nothing wide.
    let c = check_one("rule narrow<W>(x: W) { x & x => x if W:16 <=u 3:16 }");
    assert!(matches!(
        c.verdict,
        Verdict::Inconclusive("the guard never held in the sampled tier")
    ));
    // A guarded rule whose admitted widths are all small is complete without sampling.
    let c = check_one("rule small<W>(x: W) where W <= 4 { x & x => x }");
    assert!(
        c.is_sound() && c.evidence.complete,
        "{:?} {:?}",
        c.verdict,
        c.evidence
    );
}

#[test]
fn no_small_width_is_inconclusive() {
    let c = check_one("rule far<W>(x: W) where W >= 20 { x & x => x }");
    assert!(matches!(
        c.verdict,
        Verdict::Inconclusive("no admitted width assignment is small enough to check exhaustively")
    ));
}

#[test]
fn ledger_vouches_only_for_sound_rules() {
    let bad = rule(
        "rule bad<W>(x: W, y: W) where W >= 20 { x ^ y => x if proves(y == k) let k: W = (ones >>u 3) - W }",
    );
    let checks = vec![check_rule(&bad, &CheckConfig::default())];
    assert!(!checks[0].is_sound());
    let l = Ledger::from_checks(&checks);
    assert!(!l.vouches_for(&checks[0].name, checks[0].id));
    let good = rule("rule good<W>(x: W, y: W) { x & (x | y) => x }");
    let checks = vec![check_rule(&good, &CheckConfig::default()), check_rule(&bad, &CheckConfig::default())];
    let l = Ledger::from_checks(&checks);
    assert!(l.vouches_for(&checks[0].name, checks[0].id));
    assert!(!l.vouches_for(&checks[1].name, checks[1].id));
    assert!(!l.vouches_for(&checks[0].name, RuleId { hi: 1, lo: 2 }));
}

#[test]
fn widths_determined_only_by_a_sum_still_match() {
    let r = rule(
        "rule cc<W, U>(x: W, y: U, z: W, t: U) { concat(x ^ z, y ^ t) => concat(x, y) ^ concat(z, t) }",
    );
    assert_eq!(
        applies(&r, "concat(p ^ q, r:3 ^ s:3)", "concat(p, r:3) ^ concat(q, s:3)", 4),
        Some(true)
    );
}

#[test]
fn the_matcher_is_bounded() {
    // `a0 & (a1 & ... (a59 & c))` against an And DAG with two viable operand orders per level
    // and no constant at the bottom: exponential without the step budget.
    let d = 60;
    let params: Vec<String> = (0..d).map(|i| format!("a{i}: W")).collect();
    let mut pat = String::from("c");
    for i in (0..d).rev() {
        pat = format!("a{i} & ({pat})");
    }
    let r = rule(&format!(
        "rule deep<W>({}, c: const W) {{ {pat} => 0 if zero_bits(a0, ones) }}",
        params.join(", ")
    ));
    let mut cx = Context::new();
    let w = Width::new(8).unwrap();
    let mut level: Vec<Expr> = (0..3).map(|i| cx.sym(format!("s{i}").as_str(), w).unwrap()).collect();
    for _ in 0..d {
        let pairs = [(0, 1), (1, 2), (2, 0)];
        level = pairs
            .iter()
            .map(|&(i, j)| cx.bin(BinOp::And, level[i], level[j]).unwrap())
            .collect();
    }
    let start = std::time::Instant::now();
    let f = check_examples(&mut cx, &r, &vec![(level[0], level[0])]);
    assert!(matches!(f[..], [ExampleFailure::DoesNotFire { example: 0, .. }]));
    assert!(start.elapsed() < std::time::Duration::from_secs(5));
}

#[test]
fn wide_exhaustive_configs_do_not_panic() {
    let r = rule("rule r<W>(x: W, y: W) { x & (x | y) => x }");
    let cfg = CheckConfig::default().with_max_exhaustive_bits(64).with_max_exhaustive_width(3);
    assert!(check_rule(&r, &cfg).is_sound());
}

#[test]
fn examples_are_checked() {
    let absorb = rule("rule absorb<W>(x: W, y: W) { x & (x | y) => x }");
    let mask = rule("rule mask<W>(x: W, c: const W) { x & c => x if zero_bits(x, ~c) }");
    let mut cx = Context::new();
    let o = ParseOptions::width(Width::new(8).unwrap());
    let mut at = |s: &str| cx.parse(s, &o).unwrap();
    let holds = vec![(at("p & (p | q)"), at("p"))];
    // The third one is of no context: nothing could be read.
    let none = Expr { id: u32::MAX };
    let mixed = vec![
        (at("p & (q | r)"), at("p")),
        (at("p & (p | q)"), at("q")),
        (none, at("p")),
        (at("p:16 & (p | q)"), at("p:16")),
    ];
    let masked = vec![(at("q & 0xf0"), at("q"))];
    assert!(check_examples(&mut cx, &absorb, &holds).is_empty());
    let f = check_examples(&mut cx, &absorb, &mixed);
    assert_eq!(f.len(), 3, "{f:?}");
    assert!(matches!(&f[0], ExampleFailure::DoesNotFire { example: 0, input } if *input == mixed[0].0));
    let p = cx.parse("p", &o).unwrap();
    assert!(matches!(
        &f[1],
        ExampleFailure::Differs { example: 1, input, expected, got }
            if *input == mixed[1].0 && *expected == mixed[1].1 && *got == p
    ));
    assert!(matches!(&f[2], ExampleFailure::Parse { example: 2, .. }));
    // A guard the example's input cannot prove: the rule does not fire.
    assert!(matches!(
        &check_examples(&mut cx, &mask, &masked)[..],
        [ExampleFailure::DoesNotFire { .. }]
    ));
}

// ----- host rewrites ------------------------------------------------------------------------------

/// The inputs, read at every width of `cfg`.
fn inputs(texts: &[&str], cfg: &RewriteCheckConfig) -> Vec<RewriteInput> {
    texts
        .iter()
        .map(|t| RewriteInput {
            text: t.to_string(),
            read: cfg
                .widths
                .iter()
                .filter(|_| !t.ends_with('+'))
                .map(|w| {
                    let mut cx = Context::new();
                    let e = cx.parse(t, &ParseOptions::width(Width::new(*w).unwrap())).unwrap();
                    (cx, e)
                })
                .collect(),
        })
        .collect()
}

fn cfg() -> RewriteCheckConfig {
    RewriteCheckConfig::default().with_widths(vec![4, 8, 64])
}

/// `x << k => x * 2^k`: right, but larger in the order.
struct ShlToMul;

impl Rewrite for ShlToMul {
    fn name(&self) -> &str {
        "t.shl_to_mul"
    }
    fn rewrite(&self, site: &mut Site, e: Expr) -> Option<Expr> {
        let NodeView::Bin(BinOp::Shl, x, k) = site.view(e)? else {
            return None;
        };
        let m = 1u64.checked_shl(u32::try_from(site.as_u64(k)?).ok()?)?;
        let w = site.width(e)?;
        let m = site.constant_u64(w, m & (u64::MAX >> (64 - w.bits())))?;
        site.bin(BinOp::Mul, x, m)
    }
}

/// `x + y => trunc(x)`: another width.
struct Narrows;

impl Rewrite for Narrows {
    fn name(&self) -> &str {
        "t.narrows"
    }
    fn rewrite(&self, site: &mut Site, e: Expr) -> Option<Expr> {
        let NodeView::Bin(BinOp::Add, x, _) = site.view(e)? else {
            return None;
        };
        site.trunc(x, Width::new(1).unwrap())
    }
}

/// `x + y` to `x`, then to `y`, alternately: not a function of the node.
struct Flaky(std::sync::atomic::AtomicU64);

impl Rewrite for Flaky {
    fn name(&self) -> &str {
        "t.flaky"
    }
    fn rewrite(&self, site: &mut Site, e: Expr) -> Option<Expr> {
        let NodeView::Bin(BinOp::Add, x, y) = site.view(e)? else {
            return None;
        };
        let k = self.0.fetch_add(1, std::sync::atomic::Ordering::Relaxed);
        Some(if k % 2 == 0 { x } else { y })
    }
}

/// `(x ^ c) ^ d` to `x`: right where `c` is `d`, wrong elsewhere.
struct XorTwice {
    careful: bool,
}

impl Rewrite for XorTwice {
    fn name(&self) -> &str {
        "t.xor_twice"
    }
    fn rewrite(&self, site: &mut Site, e: Expr) -> Option<Expr> {
        let NodeView::Bin(BinOp::Xor, a, c) = site.view(e)? else {
            return None;
        };
        let NodeView::Bin(BinOp::Xor, x, d) = site.view(a)? else {
            return None;
        };
        (c == d || !self.careful).then_some(x)
    }
}

/// A handle of no context.
struct Foreign;

impl Rewrite for Foreign {
    fn name(&self) -> &str {
        "t.foreign"
    }
    fn rewrite(&self, _: &mut Site, _: Expr) -> Option<Expr> {
        Some(Expr { id: 1 << 31 })
    }
}

#[test]
fn failures_are_reported() {
    let cfg = cfg();
    let mut ins = inputs(&["x << 3"], &cfg);
    match rewrite(&ShlToMul, &mut ins, &cfg) {
        Err(RewriteFailure::NotSmaller { node, .. }) => {
            assert!(ins[0].read.iter().any(|(cx, _)| cx.display(node) == "x << 3"));
        }
        r => panic!("{r:?}"),
    }
    assert!(matches!(
        rewrite(&Narrows, &mut inputs(&["x + y"], &cfg), &cfg),
        Err(RewriteFailure::Width { .. })
    ));
    assert!(matches!(
        rewrite(&Flaky(std::sync::atomic::AtomicU64::new(0)), &mut inputs(&["x + y"], &cfg), &cfg),
        Err(RewriteFailure::Nondeterministic { .. })
    ));
    assert!(matches!(
        rewrite(&ShlToMul, &mut inputs(&["x + y"], &cfg), &cfg),
        Err(RewriteFailure::NeverApplied)
    ));
    assert!(matches!(
        rewrite(&ShlToMul, &mut inputs(&["x +"], &cfg), &cfg),
        Err(RewriteFailure::Unparsable { .. })
    ));
}

#[test]
fn rewrites_are_tested_where_they_apply() {
    let cfg = cfg();
    let texts = ["(x ^ 5) ^ 5", "((y + z) ^ 12) ^ 12", "(x ^ y) ^ z"];
    // Chains of constants are folded when they are built; one over symbols is left.
    let r = rewrite(&XorTwice { careful: false }, &mut inputs(&texts, &cfg), &cfg);
    assert!(matches!(r, Err(RewriteFailure::Differs { .. })), "{r:?}");
    let texts = ["(x ^ y) ^ y", "((x + z) ^ y) ^ y"];
    match rewrite(&XorTwice { careful: true }, &mut inputs(&texts, &cfg), &cfg) {
        Ok(report) => {
            assert!(report.applications > 0 && report.points > 0 && report.exhaustive > 0);
            assert!(report.exhaustive <= report.applications);
        }
        r => panic!("{r:?}"),
    }
    assert!(matches!(
        rewrite(&Foreign, &mut inputs(&["x + y"], &cfg), &cfg),
        Err(RewriteFailure::ForeignExpr { .. })
    ));
}

/// `x * 2^k` as `x << k` (the built-in rules do it too).
struct MulPow2;

impl Rewrite for MulPow2 {
    fn name(&self) -> &str {
        "acme.mul_pow2"
    }
    fn group(&self) -> &str {
        "acme"
    }
    fn rewrite(&self, site: &mut Site, e: Expr) -> Option<Expr> {
        let NodeView::Bin(BinOp::Mul, x, c) = site.view(e)? else {
            return None;
        };
        let c = site.as_u64(c)?;
        if !c.is_power_of_two() {
            return None;
        }
        let w = site.width(e)?;
        let k = site.constant_u64(w, u64::from(c.trailing_zeros()))?;
        site.bin(BinOp::Shl, x, k)
    }
}

/// `x + y` as `x`: wrong.
struct Drops;

impl Rewrite for Drops {
    fn name(&self) -> &str {
        "acme.drops"
    }
    fn group(&self) -> &str {
        "acme"
    }
    fn rewrite(&self, site: &mut Site, e: Expr) -> Option<Expr> {
        match site.view(e)? {
            NodeView::Bin(BinOp::Add, x, _) => Some(x),
            _ => None,
        }
    }
}

/// `x & y` as `x` where the bits of `x` that may be set are set in `y`.
struct Masks;

impl Rewrite for Masks {
    fn name(&self) -> &str {
        "acme.masks"
    }
    fn group(&self) -> &str {
        "acme"
    }
    fn revision(&self) -> u32 {
        2
    }
    fn rewrite(&self, site: &mut Site, e: Expr) -> Option<Expr> {
        let NodeView::Bin(BinOp::And, x, y) = site.view(e)? else {
            return None;
        };
        let (a, b) = (site.known(x)?, site.known(y)?);
        let w = site.width(e)?.bits() as usize;
        (0..w)
            .all(|i| a.known_zero().bit(i) == Some(true) || b.known_one().bit(i) == Some(true))
            .then_some(x)
    }
}

fn host(op: std::sync::Arc<dyn Rewrite>) -> HostLink {
    HostLink { op, trusted: false }
}

#[test]
fn host_rewrites_run_after_the_rules_of_their_group() {
    let strategy = || Strategy::new("acme", vec![]).with_rule_groups(&["acme"]);
    let eng = Engine::builder()
        .rewrite(host(std::sync::Arc::new(MulPow2)))
        .rewrite(host(std::sync::Arc::new(Masks)))
        .allow_unproven(true)
        .strategy(strategy())
        .build()
        .unwrap();
    becomes(&eng, "x * 8", "x << 3", 32);
    becomes(&eng, "(x & 0x0f) & (y | 0x0f)", "x & 0x0f", 8);
    becomes(&eng, "x * 6", "x * 6", 32);
    // One that the host does not vouch for needs leave.
    let e = Engine::builder().rewrite(host(std::sync::Arc::new(MulPow2))).strategy(strategy()).build();
    assert!(matches!(e, Err(BuildError::Unproven { rule }) if rule == "acme.mul_pow2"));
    // One found wrong is not applied, and is left alone for the rest of the call.
    let eng = Engine::builder()
        .rewrite(host(std::sync::Arc::new(Drops)))
        .allow_unproven(true)
        .strategy(strategy())
        .build()
        .unwrap();
    let mut cx = Context::new();
    let e = cx.parse("(x + y) * (x + z)", &ParseOptions::width(Width::new(8).unwrap())).unwrap();
    let out = eng.run(&mut cx, &[e], Run::default()).unwrap();
    assert!(!out.roots[0].changed);
    assert_eq!((out.stats.host.calls > 0, out.stats.host.rejected, out.stats.quarantined), (true, 1, 1));
    // Vouched for, it is applied unchecked.
    let eng = Engine::builder()
        .trusted_rewrite(host(std::sync::Arc::new(Drops)))
        .strategy(strategy())
        .build()
        .unwrap();
    becomes(&eng, "x + y", "x", 8);
    // A result that is not smaller is never committed.
    let eng = Engine::builder()
        .rewrite(host(std::sync::Arc::new(ShlToMul)))
        .allow_unproven(true)
        .strategy(Strategy::new("host", vec![]).with_rule_groups(&["host"]))
        .build()
        .unwrap();
    let e = cx.parse("x << 3", &ParseOptions::width(Width::new(8).unwrap())).unwrap();
    let out = eng.run(&mut cx, &[e], Run::default()).unwrap();
    assert!(!out.roots[0].changed);
    assert!(out.stats.host.rejected_cost > 0);
}
