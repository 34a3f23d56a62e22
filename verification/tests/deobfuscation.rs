#![allow(dead_code, unused_imports, clippy::all)]

use bitwright::bitvec::{BitVec, Width};
use bitwright::engine::budget::{Admission, Allowance, Budget, Clock, Deadline};
use bitwright::engine::builder::EngineBuilder;
use bitwright::engine::link::Engine;
use bitwright::engine::run::{End, Outcome, RootOutcome, Run};
use bitwright::engine::stats::{By, Event, Hooks, Observer, PassTable};
use bitwright::engine::strategy::{Phase, Sharing, Strategy, Verify};
use bitwright::expr::{Context, Error, Expr, NodeView};
use bitwright::facts::store::Assumptions;
use bitwright::ops::{BinOp, CmpOp, CmpOpExt, UnOp};
use std::collections::{BTreeMap, HashMap, HashSet};

// ----- text ---------------------------------------------------------------------------------------

/// The key of a symbol: its name, of at most eight letters.
fn key(name: &str) -> u64 {
    assert!(!name.is_empty() && name.len() <= 8, "{name}");
    name.bytes().fold(0u64, |k, b| (k << 8) | u64::from(b))
}

fn name_of(key: u64) -> String {
    key.to_be_bytes().iter().filter(|b| **b != 0).map(|b| *b as char).collect()
}

/// The width of symbols and numbers that say none.
struct ParseOptions {
    width: u16,
}

impl ParseOptions {
    fn width(w: Width) -> ParseOptions {
        ParseOptions { width: w.bits() }
    }
}

#[derive(Clone, Debug)]
enum Ast {
    Num(u128, Option<u16>),
    Sym(String, Option<u16>),
    Un(UnOp, Box<Ast>),
    Bin(BinOp, Box<Ast>, Box<Ast>),
    Rel(CmpOpExt, Box<Ast>, Box<Ast>),
    Zext(u16, Box<Ast>),
    Sext(u16, Box<Ast>),
    Extract(u16, u16, Box<Ast>),
    Concat(Box<Ast>, Box<Ast>),
    Select(Box<Ast>, Box<Ast>, Box<Ast>),
}

fn tokens(src: &str) -> Vec<String> {
    let s: Vec<char> = src.chars().collect();
    let mut out = Vec::new();
    let mut i = 0;
    while i < s.len() {
        let c = s[i];
        if c.is_whitespace() {
            i += 1;
            continue;
        }
        let start = i;
        if c.is_alphanumeric() || c == '_' || c == '%' {
            i += 1;
            while i < s.len() && (s[i].is_alphanumeric() || s[i] == '_') {
                i += 1;
            }
        } else {
            let mut n = 1;
            for op in [">>u", ">>s", "<=u", "<=s", ">=u", ">=s", "<<", "==", "!=", "<u", "<s", ">u", ">s"] {
                let o: Vec<char> = op.chars().collect();
                if s[i..].starts_with(&o) {
                    n = o.len();
                    break;
                }
            }
            i += n;
        }
        out.push(s[start..i].iter().collect());
    }
    out
}

struct Parser {
    toks: Vec<String>,
    at: usize,
    lets: HashMap<String, Ast>,
}

impl Parser {
    fn peek(&self) -> &str {
        self.toks.get(self.at).map(|s| s.as_str()).unwrap_or("")
    }

    fn next(&mut self) -> String {
        let t = self.peek().to_string();
        self.at += 1;
        t
    }

    fn want(&mut self, t: &str) {
        let got = self.next();
        assert_eq!(got, t, "in {:?}", self.toks);
    }

    fn number(&mut self) -> u16 {
        self.next().parse().unwrap()
    }

    fn program(&mut self) -> Ast {
        while self.peek() == "let" {
            self.next();
            let name = self.next();
            self.want("=");
            let a = self.expr(0);
            self.want(";");
            self.lets.insert(name, a);
        }
        let a = self.expr(0);
        assert_eq!(self.at, self.toks.len(), "rest of {:?}", self.toks);
        a
    }

    fn expr(&mut self, level: usize) -> Ast {
        if level == 6 {
            return self.unary();
        }
        let mut a = self.expr(level + 1);
        loop {
            let rel = match self.peek() {
                "==" => Some(CmpOpExt::Eq),
                "!=" => Some(CmpOpExt::Ne),
                "<u" => Some(CmpOpExt::Ult),
                "<=u" => Some(CmpOpExt::Ule),
                ">u" => Some(CmpOpExt::Ugt),
                ">=u" => Some(CmpOpExt::Uge),
                "<s" => Some(CmpOpExt::Slt),
                "<=s" => Some(CmpOpExt::Sle),
                ">s" => Some(CmpOpExt::Sgt),
                ">=s" => Some(CmpOpExt::Sge),
                _ => None,
            };
            if let (0, Some(op)) = (level, rel) {
                self.next();
                let b = self.expr(level + 1);
                a = Ast::Rel(op, Box::new(a), Box::new(b));
                continue;
            }
            let op = match (level, self.peek()) {
                (1, "|") => BinOp::Or,
                (2, "^") => BinOp::Xor,
                (3, "&") => BinOp::And,
                (4, "<<") => BinOp::Shl,
                (4, ">>u") => BinOp::LShr,
                (4, ">>s") => BinOp::AShr,
                (5, "+") => BinOp::Add,
                (5, "-") => BinOp::Sub,
                _ => return a,
            };
            self.next();
            let b = self.expr(level + 1);
            a = Ast::Bin(op, Box::new(a), Box::new(b));
        }
    }

    fn unary(&mut self) -> Ast {
        let mut a = self.atom();
        while self.peek() == "*" {
            self.next();
            let b = self.atom();
            a = Ast::Bin(BinOp::Mul, Box::new(a), Box::new(b));
        }
        a
    }

    fn call(&mut self) -> Vec<Ast> {
        self.want("(");
        let mut args = Vec::new();
        loop {
            args.push(self.expr(0));
            if self.next() == ")" {
                return args;
            }
        }
    }

    fn colon(&mut self) -> Option<u16> {
        if self.peek() == ":" {
            self.next();
            Some(self.number())
        } else {
            None
        }
    }

    fn atom(&mut self) -> Ast {
        let t = self.next();
        match t.as_str() {
            "(" => {
                let a = self.expr(0);
                self.want(")");
                return a;
            }
            "~" => return Ast::Un(UnOp::Not, Box::new(self.atom())),
            "-" => return Ast::Un(UnOp::Neg, Box::new(self.atom())),
            "true" => return Ast::Num(1, Some(1)),
            "false" => return Ast::Num(0, Some(1)),
            _ => {}
        }
        if t.starts_with(|c: char| c.is_ascii_digit()) {
            let v = match t.strip_prefix("0x") {
                Some(h) => u128::from_str_radix(h, 16).unwrap(),
                None => t.parse().unwrap(),
            };
            let w = self.colon();
            return Ast::Num(v, w);
        }
        if self.peek() == "<" {
            self.next();
            let n = self.number();
            let m = if self.peek() == "," {
                self.next();
                Some(self.number())
            } else {
                None
            };
            self.want(">");
            let a = Box::new(self.call().remove(0));
            return match t.as_str() {
                "zext" => Ast::Zext(n, a),
                "sext" => Ast::Sext(n, a),
                "trunc" => Ast::Extract(0, n, a),
                "extract" => Ast::Extract(n, m.unwrap(), a),
                _ => panic!("{t}"),
            };
        }
        if self.peek() == "(" {
            let mut args = self.call();
            let mut arg = || Box::new(args.remove(0));
            return match t.as_str() {
                "select" => Ast::Select(arg(), arg(), arg()),
                "concat" => Ast::Concat(arg(), arg()),
                "udiv" => Ast::Bin(BinOp::UDiv, arg(), arg()),
                "urem" => Ast::Bin(BinOp::URem, arg(), arg()),
                "sdiv" => Ast::Bin(BinOp::SDiv, arg(), arg()),
                "srem" => Ast::Bin(BinOp::SRem, arg(), arg()),
                "rotl" => Ast::Bin(BinOp::RotL, arg(), arg()),
                "rotr" => Ast::Bin(BinOp::RotR, arg(), arg()),
                "popcnt" => Ast::Un(UnOp::Popcnt, arg()),
                "clz" => Ast::Un(UnOp::Clz, arg()),
                "ctz" => Ast::Un(UnOp::Ctz, arg()),
                "bswap" => Ast::Un(UnOp::Bswap, arg()),
                "bitrev" => Ast::Un(UnOp::BitRev, arg()),
                _ => panic!("{t}"),
            };
        }
        if let Some(a) = self.lets.get(&t) {
            return a.clone();
        }
        let w = self.colon();
        Ast::Sym(t, w)
    }
}

/// The width of an expression, where its text says it.
fn width_said(a: &Ast, known: &HashMap<String, u16>) -> Option<u16> {
    match a {
        Ast::Num(_, w) => *w,
        Ast::Sym(n, w) => w.or(known.get(n).copied()),
        Ast::Un(_, a) => width_said(a, known),
        Ast::Bin(_, a, b) => width_said(a, known).or(width_said(b, known)),
        Ast::Rel(..) => Some(1),
        Ast::Zext(n, _) | Ast::Sext(n, _) => Some(*n),
        Ast::Extract(_, n, _) => Some(*n),
        Ast::Concat(a, b) => Some(width_said(a, known)? + width_said(b, known)?),
        Ast::Select(_, a, b) => width_said(a, known).or(width_said(b, known)),
    }
}

fn note_widths(a: &Ast, known: &mut HashMap<String, u16>) {
    match a {
        Ast::Num(..) => {}
        Ast::Sym(n, w) => {
            if let Some(w) = w {
                known.insert(n.clone(), *w);
            }
        }
        Ast::Un(_, a) | Ast::Zext(_, a) | Ast::Sext(_, a) | Ast::Extract(_, _, a) => note_widths(a, known),
        Ast::Bin(_, a, b) | Ast::Rel(_, a, b) | Ast::Concat(a, b) => {
            note_widths(a, known);
            note_widths(b, known);
        }
        Ast::Select(a, b, c) => {
            note_widths(a, known);
            note_widths(b, known);
            note_widths(c, known);
        }
    }
}

fn bits_of(w: u16, v: u128) -> BitVec {
    BitVec::from_bools((0..w).map(|i| i < 128 && (v >> i) & 1 == 1).collect())
}

fn elaborate(cx: &mut Context, a: &Ast, w: u16, dflt: u16, known: &HashMap<String, u16>) -> Expr {
    let wd = |n: u16| Width::new(n).unwrap();
    match a {
        Ast::Num(v, n) => cx.constant(&bits_of(n.unwrap_or(w), *v)).unwrap(),
        Ast::Sym(s, n) => {
            let n = n.or(known.get(s).copied()).unwrap_or(w);
            cx.symbol(key(s), wd(n)).unwrap()
        }
        Ast::Un(op, a) => {
            let a = elaborate(cx, a, w, dflt, known);
            cx.un(*op, a).unwrap()
        }
        Ast::Bin(op, a, b) => {
            let n = width_said(a, known).or(width_said(b, known)).unwrap_or(w);
            let a = elaborate(cx, a, n, dflt, known);
            let b = elaborate(cx, b, n, dflt, known);
            cx.bin(*op, a, b).unwrap()
        }
        Ast::Rel(op, a, b) => {
            let n = width_said(a, known).or(width_said(b, known)).unwrap_or(dflt);
            let a = elaborate(cx, a, n, dflt, known);
            let b = elaborate(cx, b, n, dflt, known);
            cx.compare(*op, a, b).unwrap()
        }
        Ast::Zext(n, a) => {
            let k = width_said(a, known).unwrap_or(dflt);
            let a = elaborate(cx, a, k, dflt, known);
            cx.zext(a, wd(*n)).unwrap()
        }
        Ast::Sext(n, a) => {
            let k = width_said(a, known).unwrap_or(dflt);
            let a = elaborate(cx, a, k, dflt, known);
            cx.sext(a, wd(*n)).unwrap()
        }
        Ast::Extract(lo, n, a) => {
            let k = width_said(a, known).unwrap_or(dflt);
            let a = elaborate(cx, a, k, dflt, known);
            cx.extract(a, *lo, wd(*n)).unwrap()
        }
        Ast::Concat(a, b) => {
            let k = width_said(a, known).unwrap_or(dflt);
            let a = elaborate(cx, a, k, dflt, known);
            let k = width_said(b, known).unwrap_or(dflt);
            let b = elaborate(cx, b, k, dflt, known);
            cx.concat(a, b).unwrap()
        }
        Ast::Select(c, a, b) => {
            let n = width_said(a, known).or(width_said(b, known)).unwrap_or(w);
            let c = elaborate(cx, c, 1, dflt, known);
            let a = elaborate(cx, a, n, dflt, known);
            let b = elaborate(cx, b, n, dflt, known);
            cx.select(c, a, b).unwrap()
        }
    }
}

fn operands(v: &NodeView) -> Vec<Expr> {
    match *v {
        NodeView::Const | NodeView::Sym(_) => vec![],
        NodeView::Un(_, a) | NodeView::Zext(a) | NodeView::Sext(a) | NodeView::Extract(a, _) => vec![a],
        NodeView::Bin(_, a, b) | NodeView::Cmp(_, a, b) | NodeView::Concat(a, b) => vec![a, b],
        NodeView::Select(a, b, c) => vec![a, b, c],
    }
}

/// The nodes of `roots`, operands first.
fn nodes_of(cx: &Context, roots: &[Expr]) -> Vec<Expr> {
    let mut out = Vec::new();
    let mut seen = HashSet::new();
    let mut stack: Vec<(Expr, bool)> = roots.iter().rev().map(|e| (*e, false)).collect();
    while let Some((e, done)) = stack.pop() {
        if done {
            out.push(e);
        } else if seen.insert(e) {
            stack.push((e, true));
            for k in operands(&cx.view(e).unwrap()).into_iter().rev() {
                stack.push((k, false));
            }
        }
    }
    out
}

/// A constant, as a signed number where it has more than one bit.
fn const_text(v: &BitVec) -> String {
    let w = v.len();
    let bit = |i: usize| v.bit(i).unwrap();
    if w > 1 && bit(w - 1) && w <= 120 {
        let mut m: i128 = -1;
        for i in 0..w {
            if !bit(i) {
                m -= 1 << i;
            }
        }
        return format!("{m}");
    }
    if (0..w).all(bit) && w > 1 {
        return "-1".to_string();
    }
    let top = (0..w).rev().find(|i| bit(*i)).unwrap_or(0);
    if top < 127 {
        let mut m: u128 = 0;
        for i in 0..=top {
            if bit(i) {
                m += 1 << i;
            }
        }
        return format!("{m}");
    }
    let mut s = String::new();
    for d in (0..=top / 4).rev() {
        let x = (0..4).filter(|i| d * 4 + i < w && bit(d * 4 + i)).map(|i| 1u32 << i).sum::<u32>();
        s.push(char::from_digit(x, 16).unwrap());
    }
    format!("0x{s}")
}

struct Shower<'a> {
    cx: &'a Context,
    names: HashMap<Expr, String>,
}

impl Shower<'_> {
    fn is_const(&self, e: Expr) -> bool {
        matches!(self.cx.view(e).unwrap(), NodeView::Const)
    }

    fn full(&self, e: Expr) -> String {
        match self.cx.as_const(e).unwrap() {
            Some(v) => format!("{}:{}", const_text(&v), v.len()),
            None => self.text(e, true),
        }
    }

    /// An operand beside another one that tells its width.
    fn side(&self, e: Expr, parens: bool) -> String {
        match self.cx.as_const(e).unwrap() {
            Some(v) => const_text(&v),
            None => {
                let infix = matches!(self.cx.view(e).unwrap(), NodeView::Bin(op, ..) if infix(op).is_some())
                    || matches!(self.cx.view(e).unwrap(), NodeView::Cmp(..));
                if parens && infix && !self.names.contains_key(&e) {
                    format!("({})", self.text(e, true))
                } else {
                    self.text(e, true)
                }
            }
        }
    }

    fn text(&self, e: Expr, named: bool) -> String {
        if named {
            if let Some(n) = self.names.get(&e) {
                return n.clone();
            }
        }
        let w = self.cx.width(e).unwrap().bits();
        match self.cx.view(e).unwrap() {
            NodeView::Const => self.full(e),
            NodeView::Sym(k) => name_of(k),
            NodeView::Un(op, a) => match op {
                UnOp::Not => format!("~{}", self.side(a, true)),
                UnOp::Neg => format!("-{}", self.side(a, true)),
                UnOp::Popcnt => format!("popcnt({})", self.full(a)),
                UnOp::Clz => format!("clz({})", self.full(a)),
                UnOp::Ctz => format!("ctz({})", self.full(a)),
                UnOp::Bswap => format!("bswap({})", self.full(a)),
                UnOp::BitRev => format!("bitrev({})", self.full(a)),
            },
            NodeView::Bin(op, a, b) => match infix(op) {
                Some(o) => {
                    let chain = matches!(op, BinOp::Add | BinOp::Mul | BinOp::And | BinOp::Or | BinOp::Xor);
                    let same = matches!(self.cx.view(a).unwrap(), NodeView::Bin(p, ..) if p == op) && chain;
                    let sum = matches!(op, BinOp::Add | BinOp::Sub);
                    let product = |e: Expr| sum && matches!(self.cx.view(e).unwrap(), NodeView::Bin(BinOp::Mul, ..));
                    format!("{} {o} {}", self.side(a, !same && !product(a)), self.side(b, !product(b)))
                }
                None => {
                    let f = match op {
                        BinOp::UDiv => "udiv",
                        BinOp::URem => "urem",
                        BinOp::SDiv => "sdiv",
                        BinOp::SRem => "srem",
                        BinOp::RotL => "rotl",
                        _ => "rotr",
                    };
                    format!("{f}({}, {})", self.full(a), self.full(b))
                }
            },
            NodeView::Cmp(op, a, b) => {
                let o = match op {
                    CmpOp::Eq => "==",
                    CmpOp::Ne => "!=",
                    CmpOp::Ult => "<u",
                    CmpOp::Ule => "<=u",
                    CmpOp::Slt => "<s",
                    CmpOp::Sle => "<=s",
                };
                format!("{} {o} {}", self.side(a, true), self.side(b, true))
            }
            NodeView::Zext(a) => format!("zext<{w}>({})", self.full(a)),
            NodeView::Sext(a) => format!("sext<{w}>({})", self.full(a)),
            NodeView::Extract(a, 0) => format!("trunc<{w}>({})", self.full(a)),
            NodeView::Extract(a, lo) => format!("extract<{lo}, {w}>({})", self.full(a)),
            NodeView::Concat(a, b) => format!("concat({}, {})", self.full(a), self.full(b)),
            NodeView::Select(c, a, b) => {
                format!("select({}, {}, {})", self.full(c), self.full(a), self.full(b))
            }
        }
    }
}

fn infix(op: BinOp) -> Option<&'static str> {
    Some(match op {
        BinOp::Add => "+",
        BinOp::Sub => "-",
        BinOp::Mul => "*",
        BinOp::And => "&",
        BinOp::Or => "|",
        BinOp::Xor => "^",
        BinOp::Shl => "<<",
        BinOp::LShr => ">>u",
        BinOp::AShr => ">>s",
        _ => return None,
    })
}

/// Expressions as text.
trait Text {
    fn sym(&mut self, name: &str, w: Width) -> Result<Expr, Error>;
    fn parse(&mut self, src: &str, o: &ParseOptions) -> Result<Expr, Error>;
    fn display(&self, e: Expr) -> String;
    fn cmp(&mut self, op: CmpOpExt, a: Expr, b: Expr) -> Result<Expr, Error>;
}

impl Text for Context {
    fn sym(&mut self, name: &str, w: Width) -> Result<Expr, Error> {
        self.symbol(key(name), w)
    }

    fn parse(&mut self, src: &str, o: &ParseOptions) -> Result<Expr, Error> {
        let mut p = Parser { toks: tokens(src), at: 0, lets: HashMap::new() };
        let a = p.program();
        let mut known = HashMap::new();
        note_widths(&a, &mut known);
        let w = width_said(&a, &known).unwrap_or(o.width);
        Ok(elaborate(self, &a, w, o.width, &known))
    }

    fn display(&self, e: Expr) -> String {
        let all = nodes_of(self, &[e]);
        let mut uses: HashMap<Expr, usize> = HashMap::new();
        for n in &all {
            for k in operands(&self.view(*n).unwrap()) {
                *uses.entry(k).or_insert(0) += 1;
            }
        }
        let mut s = Shower { cx: self, names: HashMap::new() };
        let mut out = String::new();
        for n in &all {
            if uses.get(n).copied().unwrap_or(0) > 1 && !operands(&self.view(*n).unwrap()).is_empty() {
                let name = format!("%{}", s.names.len());
                out.push_str(&format!("let {name} = {};\n", s.text(*n, false)));
                s.names.insert(*n, name);
            }
        }
        out + &s.full(e)
    }

    fn cmp(&mut self, op: CmpOpExt, a: Expr, b: Expr) -> Result<Expr, Error> {
        self.compare(op, a, b)
    }
}

// ----- random expressions -------------------------------------------------------------------------

const RELS: [CmpOpExt; 10] = [
    CmpOpExt::Eq,
    CmpOpExt::Ne,
    CmpOpExt::Ult,
    CmpOpExt::Ule,
    CmpOpExt::Ugt,
    CmpOpExt::Uge,
    CmpOpExt::Slt,
    CmpOpExt::Sle,
    CmpOpExt::Sgt,
    CmpOpExt::Sge,
];

const UNS: [UnOp; 6] = [UnOp::Not, UnOp::Neg, UnOp::Popcnt, UnOp::Clz, UnOp::Ctz, UnOp::BitRev];

const BINS: [BinOp; 15] = [
    BinOp::Add,
    BinOp::Sub,
    BinOp::Mul,
    BinOp::UDiv,
    BinOp::URem,
    BinOp::SDiv,
    BinOp::SRem,
    BinOp::And,
    BinOp::Or,
    BinOp::Xor,
    BinOp::Shl,
    BinOp::LShr,
    BinOp::AShr,
    BinOp::RotL,
    BinOp::RotR,
];

struct Rng(u64);

impl Rng {
    fn next(&mut self) -> u64 {
        self.0 = self.0.wrapping_add(0x9e37_79b9_7f4a_7c15);
        let mut z = self.0;
        z = (z ^ (z >> 30)).wrapping_mul(0xbf58_476d_1ce4_e5b9);
        z = (z ^ (z >> 27)).wrapping_mul(0x94d0_49bb_1331_11eb);
        z ^ (z >> 31)
    }

    fn below(&mut self, n: u64) -> u64 {
        self.next() % n
    }

    fn chance(&mut self, a: u64, b: u64) -> bool {
        self.below(b) < a
    }

    fn value(&mut self, w: u16) -> BitVec {
        let v: Vec<bool> = match self.below(6) {
            0 => vec![false; w as usize],
            1 => vec![true; w as usize],
            2 => {
                let k = self.below(u64::from(w)) as u16;
                (0..w).map(|i| i == k).collect()
            }
            3 => {
                let x = self.below(16);
                (0..w).map(|i| i < 8 && (x >> i) & 1 == 1).collect()
            }
            _ => (0..w).map(|_| self.chance(1, 2)).collect(),
        };
        BitVec::from_bools(v)
    }
}

struct Gen {
    rng: Rng,
    max_w: u16,
}

fn generator(seed: u64) -> Gen {
    Gen { rng: Rng(seed), max_w: 6 }
}

impl Gen {
    fn constant(&mut self, w: u16) -> BitVec {
        self.rng.value(w)
    }

    /// A random expression of `w` bits over every operator.
    fn expr(&mut self, cx: &mut Context, w: u16, depth: u32) -> (Expr, u32) {
        let width = Width::new(w).unwrap();
        if depth == 0 || self.rng.chance(1, 6) {
            let e = if self.rng.chance(1, 4) {
                let v = self.constant(w);
                cx.constant(&v).unwrap()
            } else {
                let n = ["a", "b", "c"][self.rng.below(3) as usize];
                cx.sym(&format!("{n}{w}"), width).unwrap()
            };
            return (e, depth);
        }
        let d = depth - 1;
        let e = match self.rng.below(10) {
            0 => {
                let a = self.expr(cx, w, d).0;
                cx.un(UNS[self.rng.below(6) as usize], a).unwrap()
            }
            1 if w > 1 => {
                let n = 1 + self.rng.below(u64::from(w) - 1) as u16;
                let a = self.expr(cx, n, d).0;
                if self.rng.chance(1, 2) {
                    cx.zext(a, width).unwrap()
                } else {
                    cx.sext(a, width).unwrap()
                }
            }
            2 if w < self.max_w => {
                let n = w + 1 + self.rng.below(u64::from(self.max_w - w)) as u16;
                let a = self.expr(cx, n, d).0;
                let lo = self.rng.below(u64::from(n - w) + 1) as u16;
                cx.extract(a, lo, width).unwrap()
            }
            3 if w > 1 => {
                let n = 1 + self.rng.below(u64::from(w) - 1) as u16;
                let (a, b) = (self.expr(cx, n, d).0, self.expr(cx, w - n, d).0);
                cx.concat(a, b).unwrap()
            }
            4 => {
                let c = self.expr(cx, 1, d).0;
                let (a, b) = (self.expr(cx, w, d).0, self.expr(cx, w, d).0);
                cx.select(c, a, b).unwrap()
            }
            5 if w == 1 => {
                let n = 1 + self.rng.below(u64::from(self.max_w)) as u16;
                let (a, b) = (self.expr(cx, n, d).0, self.expr(cx, n, d).0);
                cx.compare(RELS[self.rng.below(10) as usize], a, b).unwrap()
            }
            _ => {
                let (a, b) = (self.expr(cx, w, d).0, self.expr(cx, w, d).0);
                cx.bin(BINS[self.rng.below(15) as usize], a, b).unwrap()
            }
        };
        (e, depth)
    }
}

/// The symbols of two expressions, with their widths.
fn symbols(cx: &Context, roots: &[Expr]) -> BTreeMap<u64, u16> {
    let mut out = BTreeMap::new();
    for e in nodes_of(cx, roots) {
        if let NodeView::Sym(k) = cx.view(e).unwrap() {
            out.insert(k, cx.width(e).unwrap().bits());
        }
    }
    out
}

/// Whether two expressions agree: everywhere where their symbols have few bits, else at some
/// values.
fn equivalent(cx: &mut Context, a: Expr, b: Expr, rng: &mut Rng) -> bool {
    if a == b {
        return true;
    }
    let syms: Vec<(u64, u16)> = symbols(cx, &[a, b]).into_iter().collect();
    let total: u32 = syms.iter().map(|s| u32::from(s.1)).sum();
    let agree = |env: &Vec<(u64, BitVec)>| cx.eval(a, env).unwrap().same(&cx.eval(b, env).unwrap());
    if total <= 9 {
        for x in 0..(1u64 << total) {
            let mut at = 0;
            let mut env = Vec::new();
            for (k, w) in &syms {
                env.push((*k, bits_of(*w, u128::from(x >> at) & ((1 << w) - 1))));
                at += w;
            }
            if !agree(&env) {
                return false;
            }
        }
        return true;
    }
    for _ in 0..40 {
        let env: Vec<(u64, BitVec)> = syms.iter().map(|(k, w)| (*k, rng.value(*w))).collect();
        if !agree(&env) {
            return false;
        }
    }
    true
}

/// How many nodes `roots` have together.
fn dag(cx: &mut Context, roots: &[Expr]) -> u32 {
    nodes_of(cx, roots).len() as u32
}

/// An engine running `phases` with the default verification: the tests' own equivalence
/// checks are the oracle (strict verification would reject a wrong rewrite before any test
/// could see it).
fn engine(phases: Vec<Phase>) -> Engine {
    Engine::builder().builtin().strategy(Strategy::new("t", phases)).build().unwrap()
}

fn simplify(eng: &Engine, src: &str, w: u16) -> String {
    let mut cx = Context::new();
    let e = cx.parse(src, &ParseOptions::width(Width::new(w).unwrap())).unwrap();
    let out = eng.simplify(&mut cx, e).unwrap();
    cx.display(out.expr).to_string()
}

/// Checks what `eng` makes of `src`.
fn becomes(eng: &Engine, src: &str, want: &str, w: u16) {
    let mut cx = Context::new();
    let o = ParseOptions::width(Width::new(w).unwrap());
    let e = cx.parse(src, &o).unwrap();
    let want = cx.parse(want, &o).unwrap();
    let out = eng.simplify(&mut cx, e).unwrap();
    assert_eq!(out.expr, want, "{src}: got {}", cx.display(out.expr));
}

// ----- linear MBA ---------------------------------------------------------------------------------

/// A random linear MBA: a random integer combination of random bitwise functions of up to four
/// atoms (symbols, or a non-linear compound), plus a constant.
fn linear_mba_expr(g: &mut Gen, cx: &mut Context, w: u16) -> Expr {
    let width = Width::new(w).unwrap();
    let natoms = 1 + g.rng.below(4);
    let atoms: Vec<Expr> = (0..natoms)
        .map(|k| {
            if k == 3 {
                let a = cx.sym("a", width).unwrap();
                let b = cx.sym("b", width).unwrap();
                cx.bin(BinOp::Mul, a, b).unwrap()
            } else {
                cx.sym(["a", "b", "c"][k as usize], width).unwrap()
            }
        })
        .collect();
    let terms = 1 + g.rng.below(4);
    let v = g.constant(w);
    let mut e = cx.constant(&v).unwrap();
    for _ in 0..terms {
        // A random bitwise function over the atoms.
        let mut f = atoms[g.rng.below(natoms) as usize];
        for _ in 0..g.rng.below(4) {
            let other = atoms[g.rng.below(natoms) as usize];
            f = match g.rng.below(4) {
                0 => cx.un(UnOp::Not, f).unwrap(),
                1 => cx.bin(BinOp::And, f, other).unwrap(),
                2 => cx.bin(BinOp::Or, f, other).unwrap(),
                _ => cx.bin(BinOp::Xor, f, other).unwrap(),
            };
        }
        // Sometimes under a non-uniform mask (then no longer a bitwise function of the atoms
        // alone: an atom of the fragment, and the pass must not read the mask as uniform).
        if g.rng.chance(1, 4) {
            let m = g.constant(w);
            let m = cx.constant(&m).unwrap();
            f = cx.bin(BinOp::And, f, m).unwrap();
        }
        let k = g.constant(w);
        let k = cx.constant(&k).unwrap();
        let t = cx.bin(BinOp::Mul, f, k).unwrap();
        e = cx
            .bin(
                if g.rng.chance(1, 3) {
                    BinOp::Sub
                } else {
                    BinOp::Add
                },
                e,
                t,
            )
            .unwrap();
    }
    e
}

// ----- shuffle ------------------------------------------------------------------------------------

/// A random value assembled from slices: masks, shifts, rotations, extensions, extracts,
/// concats, byte swaps, and | ^ + of pieces.
fn shuffle_expr(g: &mut Gen, cx: &mut Context, w: u16, depth: u32) -> Expr {
    let width = Width::new(w).unwrap();
    if depth == 0 || g.rng.chance(1, 5) {
        return match g.rng.below(4) {
            0 => {
                let v = g.constant(w);
                cx.constant(&v).unwrap()
            }
            k => {
                let name = format!("{}{w}", ["x", "y", "z"][(k - 1) as usize]);
                cx.sym(name.as_str(), width).unwrap()
            }
        };
    }
    let d = depth - 1;
    loop {
        match g.rng.below(9) {
            0 => {
                let x = shuffle_expr(g, cx, w, d);
                let m = g.constant(w);
                let m = cx.constant(&m).unwrap();
                return cx.bin(BinOp::And, x, m).unwrap();
            }
            1 => {
                let (x, y) = (shuffle_expr(g, cx, w, d), shuffle_expr(g, cx, w, d));
                let op = [BinOp::Or, BinOp::Xor, BinOp::Add][g.rng.below(3) as usize];
                return cx.bin(op, x, y).unwrap();
            }
            2 => {
                let x = shuffle_expr(g, cx, w, d);
                let kv = BitVec::wrapping_from_u64(width, g.rng.below(u64::from(w) + 2));
                let k = cx.constant(&kv).unwrap();
                let op = [
                    BinOp::Shl,
                    BinOp::LShr,
                    BinOp::AShr,
                    BinOp::RotL,
                    BinOp::RotR,
                ][g.rng.below(5) as usize];
                return cx.bin(op, x, k).unwrap();
            }
            3 if w > 1 => {
                let from = 1 + g.rng.below(u64::from(w - 1)) as u16;
                let x = shuffle_expr(g, cx, from, d);
                return if g.rng.chance(1, 2) {
                    cx.zext(x, width).unwrap()
                } else {
                    cx.sext(x, width).unwrap()
                };
            }
            4 if w < 16 => {
                let from = w + 1 + g.rng.below(u64::from(16 - w)) as u16;
                let lo = g.rng.below(u64::from(from - w) + 1) as u16;
                let x = shuffle_expr(g, cx, from, d);
                return cx.extract(x, lo, width).unwrap();
            }
            5 if w > 1 => {
                let hw = 1 + g.rng.below(u64::from(w - 1)) as u16;
                let h = shuffle_expr(g, cx, hw, d);
                let l = shuffle_expr(g, cx, w - hw, d);
                return cx.concat(h, l).unwrap();
            }
            6 if w % 8 == 0 => {
                let x = shuffle_expr(g, cx, w, d);
                return cx.un(UnOp::Bswap, x).unwrap();
            }
            7 | 8 => {
                // A split-and-recombine of one value: (x >> k) << k | x & lowmask(k).
                let x = shuffle_expr(g, cx, w, d);
                let k = g.rng.below(u64::from(w));
                let kc = cx.constant_u64(width, k).unwrap();
                let hi = cx.bin(BinOp::LShr, x, kc).unwrap();
                let hi = cx.bin(BinOp::Shl, hi, kc).unwrap();
                let m = BitVec::from_bools((0..w).map(|i| u64::from(i) < k).collect());
                let m = cx.constant(&m).unwrap();
                let lo = cx.bin(BinOp::And, x, m).unwrap();
                let op = [BinOp::Or, BinOp::Xor, BinOp::Add][g.rng.below(3) as usize];
                return cx.bin(op, hi, lo).unwrap();
            }
            _ => {}
        }
    }
}

#[test]
fn shuffle_is_sound_and_idempotent() {
    let eng = engine(vec![Phase::Shuffle]);
    let mut g = generator(0x5f1e);
    let mut rng = Rng(99);
    let mut changed = 0;
    for i in 0..2000 {
        let mut cx = Context::new();
        let w = if i % 10 == 0 {
            [16, 32, 64, 128][g.rng.below(4) as usize]
        } else {
            1 + g.rng.below(8) as u16
        };
        let e = shuffle_expr(&mut g, &mut cx, w, 4);
        let out = eng.run(&mut cx, &[e], Run::default()).unwrap();
        let r = &out.roots[0];
        assert_eq!(out.stats.rejected, 0);
        assert!(
            equivalent(&mut cx, e, r.expr, &mut rng),
            "W={w}: {} vs {}",
            cx.display(e),
            cx.display(r.expr)
        );
        changed += u64::from(r.changed);
        cx.forget_results();
        let again = eng.run(&mut cx, &[r.expr], Run::default()).unwrap();
        assert!(
            !again.roots[0].changed,
            "not idempotent: {} -> {}",
            cx.display(r.expr),
            cx.display(again.roots[0].expr)
        );
    }
    assert!(changed > 200, "{changed}");
}

#[test]
fn shuffle_fixtures() {
    let eng = engine(vec![Phase::Shuffle]);
    let same = |src: &str, want: &str, w: u16| {
        let mut cx = Context::new();
        let o = ParseOptions::width(Width::new(w).unwrap());
        let e = cx.parse(src, &o).unwrap();
        let want = cx.parse(want, &o).unwrap();
        let out = eng.simplify(&mut cx, e).unwrap();
        assert_eq!(out.expr, want, "{src}: got {}", cx.display(out.expr));
    };
    // Limb recomposition.
    same(
        "(zext<64>(extract<32, 32>(x:64)) << 32) | zext<64>(trunc<32>(x:64))",
        "x:64",
        64,
    );
    same("((x >>u 8) << 8) | (x & 0xff)", "x", 32);
    // Rotation spelled with shifts and a disjoint or.
    same("(x << 8) | (x >>u 24)", "rotl(x, 8)", 32);
    // Byte swap spelled with masks and shifts.
    same(
        "(x << 24) | ((x & 0xff00) << 8) | ((x >>u 8) & 0xff00) | (x >>u 24)",
        "bswap(x)",
        32,
    );
    // Overlapping pieces are not traced.
    same("(x << 1) | x", "(x << 1) | x", 8);
    // One source in place with constant bits: a mask and an or, not a concat.
    same("((x >>u 2) << 2) | 3", "x | 3", 8);
    same("((x >>u 4) << 4) | 5", "(x & 0xf0) | 5", 8);
    same("(x & 0xf0) | 0x0f", "x | 0x0f", 8);
    same("(x & -4) ^ 3", "x | 3", 8);
}

#[test]
fn deobfuscate_strategy_undoes_layered_masking() {
    let eng = Engine::builder()
        .builtin()
        .strategy(Strategy::deobfuscate())
        .verify(Verify::strict())
        .build()
        .unwrap();
    let mut rng = Rng(123);
    for (src, want) in [
        // Linear MBA of x + y, then additive masking, then an xor mask.
        ("(((x ^ y) + 2 * (x & y)) + r - r) ^ k ^ k", "x + y"),
        // A byte-shuffled value recomposed and masked.
        (
            "((((x << 24) | ((x & 0xff00) << 8) | ((x >>u 8) & 0xff00) | (x >>u 24)) + m) - m)",
            "bswap(x)",
        ),
        // Nested: an MBA over a recomposed limb.
        (
            "(((x >>u 8) << 8) | (x & 0xff)) - y + 2 * (y & ~(((x >>u 8) << 8) | (x & 0xff))) - ((((x >>u 8) << 8) | (x & 0xff)) ^ y)",
            "0",
        ),
    ] {
        let mut cx = Context::new();
        let o = ParseOptions::width(Width::new(32).unwrap());
        let e = cx.parse(src, &o).unwrap();
        let want = cx.parse(want, &o).unwrap();
        let out = eng.run(&mut cx, &[e], Run::default()).unwrap();
        assert_eq!(out.stats.rejected, 0);
        assert!(equivalent(&mut cx, e, out.roots[0].expr, &mut rng));
        assert_eq!(
            out.roots[0].expr,
            want,
            "{src}: got {}",
            cx.display(out.roots[0].expr)
        );
    }
}
#[test]
fn linear_mba_never_reads_linear_terms_as_bitwise_operands() {
    for phases in [vec![Phase::LinearMba], Strategy::deobfuscate().phases] {
        let eng = engine(phases);
        let mut rng = Rng(0x6b);
        for w in [8u16, 32] {
            for src in [
                "(x + y) & (x | y)",
                "(x + y) | (x & y)",
                "(2 * x) & (x | y)",
                "((x << 1) & y) + (x & y)",
                "(x - y) & ~(x & y)",
                "~(x + y) & y",
            ] {
                let mut cx = Context::new();
                let e = cx.parse(src, &ParseOptions::width(Width::new(w).unwrap()))
                    .unwrap();
                let out = eng.simplify(&mut cx, e).unwrap();
                assert!(
                    equivalent(&mut cx, e, out.expr, &mut rng),
                    "W={w}: {src} became {}",
                    cx.display(out.expr)
                );
            }
        }
        // Random DAGs over + - & | ^ of two symbols, linear terms under bitwise operators.
        let mut g = generator(0x6c);
        for _ in 0..3000 {
            let mut cx = Context::new();
            let w = Width::new(1 + g.rng.below(8) as u16).unwrap();
            let mut pool = vec![cx.sym("x", w).unwrap(), cx.sym("y", w).unwrap()];
            for _ in 0..6 {
                let a = pool[g.rng.below(pool.len() as u64) as usize];
                let b = pool[g.rng.below(pool.len() as u64) as usize];
                let op = [BinOp::Add, BinOp::Sub, BinOp::And, BinOp::Or, BinOp::Xor]
                    [g.rng.below(5) as usize];
                pool.push(cx.bin(op, a, b).unwrap());
            }
            let e = *pool.last().unwrap();
            let out = eng.simplify(&mut cx, e).unwrap();
            assert!(
                equivalent(&mut cx, e, out.expr, &mut rng),
                "{} became {}",
                cx.display(e),
                cx.display(out.expr)
            );
        }
    }
}

#[test]
fn linear_mba_is_independent_of_construction_order() {
    let eng = engine(vec![Phase::LinearMba]);
    let mut g = generator(0x1234);
    for _ in 0..5000 {
        let mut c1 = Context::new();
        let mut c2 = Context::new();
        let w = Width::new(1 + g.rng.below(8) as u16).unwrap();
        for name in ["a", "b", "c", "d", "x", "y", "z"] {
            c1.sym(name, w).unwrap();
        }
        for name in ["z", "y", "x", "d", "c", "b", "a"] {
            c2.sym(name, w).unwrap();
        }
        let e1 = linear_mba_expr(&mut g, &mut c1, w.bits());
        let text = c1.display(e1).to_string();
        let e2 = c2.parse(&text, &ParseOptions::width(w)).unwrap();
        let r1 = eng.simplify(&mut c1, e1).unwrap().expr;
        let r2 = eng.simplify(&mut c2, e2).unwrap().expr;
        assert_eq!(
            c1.display(r1).to_string(),
            c2.display(r2).to_string(),
            "{text}"
        );
    }
}

#[test]
fn linear_mba_emits_conjunctions_for_any_number_of_atoms() {
    let eng = engine(vec![Phase::LinearMba]);
    for (src, w, want) in [
        // The conjunction form is smaller than the indicator form here.
        (
            "3 * (x & ~y) + 2 * (~x & y) + 5 * (x & y) - (x | y)",
            64,
            "x + x + (x & y) + y",
        ),
        // Four atoms: the indicator form needs three or fewer, and a conjunction remains.
        ("(a | b) - (a ^ b) + (c & ~d) + (c & d)", 32, "(a & b) + c"),
    ] {
        let mut cx = Context::new();
        let o = ParseOptions::width(Width::new(w).unwrap());
        let e = cx.parse(src, &o).unwrap();
        let out = eng.simplify(&mut cx, e).unwrap();
        assert_eq!(cx.display(out.expr).to_string(), want, "{src}");
    }
    // Random linear MBAs over four to six symbols, exhaustively at two bits a symbol.
    let mut g = generator(0xc0_4d);
    let mut rng = Rng(0xc0_4e);
    let mut changed = 0;
    for _ in 0..1500 {
        let mut cx = Context::new();
        let w = Width::new(2).unwrap();
        let n = 4 + g.rng.below(3) as usize;
        let vars: Vec<Expr> = (0..n)
            .map(|k| cx.sym(format!("v{k}").as_str(), w).unwrap())
            .collect();
        let mut sum = cx.constant_u64(w, g.rng.below(4)).unwrap();
        for _ in 0..(2 + g.rng.below(4)) {
            let mut f = vars[g.rng.below(n as u64) as usize];
            for _ in 0..(1 + g.rng.below(3)) {
                let o = vars[g.rng.below(n as u64) as usize];
                let o = if g.rng.chance(1, 3) {
                    cx.un(UnOp::Not, o).unwrap()
                } else {
                    o
                };
                let op = [BinOp::And, BinOp::Or, BinOp::Xor][g.rng.below(3) as usize];
                f = cx.bin(op, f, o).unwrap();
            }
            let k = cx.constant_u64(w, g.rng.below(4)).unwrap();
            let term = cx.bin(BinOp::Mul, f, k).unwrap();
            sum = cx.bin(BinOp::Add, sum, term).unwrap();
        }
        let out = eng.simplify(&mut cx, sum).unwrap();
        assert!(
            equivalent(&mut cx, sum, out.expr, &mut rng),
            "{} became {}",
            cx.display(sum),
            cx.display(out.expr)
        );
        changed += u32::from(out.changed);
    }
    assert!(changed > 300, "{changed}");
}
/// The linear pass takes a constant into a term (`k·a + k = −k·~a`) when that is smaller,
/// doubles as `a + a`, starts a sum of subtractions from its constant or a product by a
/// negative coefficient, reads `concat(trunc(x), c)` as `x·2^|c| + c`, and a constant always
/// replaces what it folds.
#[test]
fn linear_emissions() {
    let eng = engine(vec![Phase::Linear]);
    for (src, want) in [
        ("-x - 1", "~x"),
        ("(y << 2) + 4", "~y * -4"),
        ("-2 * y - 2", "let %0 = ~y;\n%0 + %0"),
        ("2 * x + y", "x + x + y"),
        ("5 - 3 * x", "5 - x * 3"),
        ("-(y * 3) - z * 5", "y * -3 - z * 5"),
        (
            "concat(trunc<62>(y), 3:2) - 6 * y - 5",
            "let %0 = ~y;\n%0 + %0",
        ),
    ] {
        let mut cx = Context::new();
        let o = ParseOptions::width(Width::new(64).unwrap());
        let e = cx.parse(src, &o).unwrap();
        let out = eng.simplify(&mut cx, e).unwrap();
        assert_eq!(cx.display(out.expr).to_string(), want, "{src}");
    }
    // A constant replaces the node it is, even beside a shared term: `~x + x` is −1.
    let eng = Engine::builder()
        .builtin()
        .strategy(Strategy::deobfuscate())
        .build()
        .unwrap();
    let mut cx = Context::new();
    let o = ParseOptions::width(Width::new(64).unwrap());
    let e = cx.parse("(~x ^ (x + ~x)) + y", &o).unwrap();
    let out = eng.simplify(&mut cx, e).unwrap();
    assert_eq!(cx.display(out.expr).to_string(), "x + y");
}


/// `a + a` is `a << 1` for the facts: its low bit is known.
#[test]
fn doubling_knows_its_low_bit() {
    let mut cx = Context::new();
    let o = ParseOptions::width(Width::new(64).unwrap());
    let e = cx.parse("x + x", &o).unwrap();
    let f = cx.known(e).unwrap();
    assert_eq!(f.known_zero().bit(0), Some(true));
}
