#![allow(dead_code, unused_imports, clippy::all)]

use bitwright::bitvec::{BitVec, Width};
use bitwright::engine::budget::{Admission, Allowance, Budget, Clock, Deadline};
use bitwright::engine::builder::EngineBuilder;
use bitwright::engine::link::Engine;
use bitwright::engine::run::{End, Outcome, RootOutcome, Run};
use bitwright::engine::stats::{By, Event, Hooks, Observer, PassKind, PassTable};
use bitwright::engine::strategy::{Phase, Sharing, Strategy, Verify};
use bitwright::expr::{Context, Error, Expr, NodeView};
use bitwright::facts::store::Assumptions;
use bitwright::ops::{BinOp, CmpOp, CmpOpExt, UnOp};
use std::collections::{BTreeMap, HashMap, HashSet};

// ----- text ---------------------------------------------------------------------------------------

/// The key of a symbol: its name, of at most eight letters.
fn key(name: &str) -> u64 {
    assert!(!name.is_empty() && name.len() <= 8, "{name}");
    name.bytes().fold(0u64, |k, b| (k << 8) | u64::from(b))
}

fn name_of(key: u64) -> String {
    key.to_be_bytes().iter().filter(|b| **b != 0).map(|b| *b as char).collect()
}

/// The width of symbols and numbers that say none.
struct ParseOptions {
    width: u16,
}

impl ParseOptions {
    fn width(w: Width) -> ParseOptions {
        ParseOptions { width: w.bits() }
    }
}

#[derive(Clone, Debug)]
enum Ast {
    Num(u128, Option<u16>),
    Sym(String, Option<u16>),
    Un(UnOp, Box<Ast>),
    Bin(BinOp, Box<Ast>, Box<Ast>),
    Rel(CmpOpExt, Box<Ast>, Box<Ast>),
    Zext(u16, Box<Ast>),
    Sext(u16, Box<Ast>),
    Extract(u16, u16, Box<Ast>),
    Concat(Box<Ast>, Box<Ast>),
    Select(Box<Ast>, Box<Ast>, Box<Ast>),
}

fn tokens(src: &str) -> Vec<String> {
    let s: Vec<char> = src.chars().collect();
    let mut out = Vec::new();
    let mut i = 0;
    while i < s.len() {
        let c = s[i];
        if c.is_whitespace() {
            i += 1;
            continue;
        }
        let start = i;
        if c.is_alphanumeric() || c == '_' || c == '%' {
            i += 1;
            while i < s.len() && (s[i].is_alphanumeric() || s[i] == '_') {
                i += 1;
            }
        } else {
            let mut n = 1;
            for op in [">>u", ">>s", "<=u", "<=s", ">=u", ">=s", "<<", "==", "!=", "<u", "<s", ">u", ">s"] {
                let o: Vec<char> = op.chars().collect();
                if s[i..].starts_with(&o) {
                    n = o.len();
                    break;
                }
            }
            i += n;
        }
        out.push(s[start..i].iter().collect());
    }
    out
}

struct Parser {
    toks: Vec<String>,
    at: usize,
    lets: HashMap<String, Ast>,
}

impl Parser {
    fn peek(&self) -> &str {
        self.toks.get(self.at).map(|s| s.as_str()).unwrap_or("")
    }

    fn next(&mut self) -> String {
        let t = self.peek().to_string();
        self.at += 1;
        t
    }

    fn want(&mut self, t: &str) {
        let got = self.next();
        assert_eq!(got, t, "in {:?}", self.toks);
    }

    fn number(&mut self) -> u16 {
        self.next().parse().unwrap()
    }

    fn program(&mut self) -> Ast {
        while self.peek() == "let" {
            self.next();
            let name = self.next();
            self.want("=");
            let a = self.expr(0);
            self.want(";");
            self.lets.insert(name, a);
        }
        let a = self.expr(0);
        assert_eq!(self.at, self.toks.len(), "rest of {:?}", self.toks);
        a
    }

    fn expr(&mut self, level: usize) -> Ast {
        if level == 6 {
            return self.unary();
        }
        let mut a = self.expr(level + 1);
        loop {
            let rel = match self.peek() {
                "==" => Some(CmpOpExt::Eq),
                "!=" => Some(CmpOpExt::Ne),
                "<u" => Some(CmpOpExt::Ult),
                "<=u" => Some(CmpOpExt::Ule),
                ">u" => Some(CmpOpExt::Ugt),
                ">=u" => Some(CmpOpExt::Uge),
                "<s" => Some(CmpOpExt::Slt),
                "<=s" => Some(CmpOpExt::Sle),
                ">s" => Some(CmpOpExt::Sgt),
                ">=s" => Some(CmpOpExt::Sge),
                _ => None,
            };
            if let (0, Some(op)) = (level, rel) {
                self.next();
                let b = self.expr(level + 1);
                a = Ast::Rel(op, Box::new(a), Box::new(b));
                continue;
            }
            let op = match (level, self.peek()) {
                (1, "|") => BinOp::Or,
                (2, "^") => BinOp::Xor,
                (3, "&") => BinOp::And,
                (4, "<<") => BinOp::Shl,
                (4, ">>u") => BinOp::LShr,
                (4, ">>s") => BinOp::AShr,
                (5, "+") => BinOp::Add,
                (5, "-") => BinOp::Sub,
                _ => return a,
            };
            self.next();
            let b = self.expr(level + 1);
            a = Ast::Bin(op, Box::new(a), Box::new(b));
        }
    }

    fn unary(&mut self) -> Ast {
        let mut a = self.atom();
        while self.peek() == "*" {
            self.next();
            let b = self.atom();
            a = Ast::Bin(BinOp::Mul, Box::new(a), Box::new(b));
        }
        a
    }

    fn call(&mut self) -> Vec<Ast> {
        self.want("(");
        let mut args = Vec::new();
        loop {
            args.push(self.expr(0));
            if self.next() == ")" {
                return args;
            }
        }
    }

    fn colon(&mut self) -> Option<u16> {
        if self.peek() == ":" {
            self.next();
            Some(self.number())
        } else {
            None
        }
    }

    fn atom(&mut self) -> Ast {
        let t = self.next();
        match t.as_str() {
            "(" => {
                let a = self.expr(0);
                self.want(")");
                return a;
            }
            "~" => return Ast::Un(UnOp::Not, Box::new(self.atom())),
            "-" => return Ast::Un(UnOp::Neg, Box::new(self.atom())),
            "true" => return Ast::Num(1, Some(1)),
            "false" => return Ast::Num(0, Some(1)),
            _ => {}
        }
        if t.starts_with(|c: char| c.is_ascii_digit()) {
            let v = match t.strip_prefix("0x") {
                Some(h) => u128::from_str_radix(h, 16).unwrap(),
                None => t.parse().unwrap(),
            };
            let w = self.colon();
            return Ast::Num(v, w);
        }
        if self.peek() == "<" {
            self.next();
            let n = self.number();
            let m = if self.peek() == "," {
                self.next();
                Some(self.number())
            } else {
                None
            };
            self.want(">");
            let a = Box::new(self.call().remove(0));
            return match t.as_str() {
                "zext" => Ast::Zext(n, a),
                "sext" => Ast::Sext(n, a),
                "trunc" => Ast::Extract(0, n, a),
                "extract" => Ast::Extract(n, m.unwrap(), a),
                _ => panic!("{t}"),
            };
        }
        if self.peek() == "(" {
            let mut args = self.call();
            let mut arg = || Box::new(args.remove(0));
            return match t.as_str() {
                "select" => Ast::Select(arg(), arg(), arg()),
                "concat" => Ast::Concat(arg(), arg()),
                "udiv" => Ast::Bin(BinOp::UDiv, arg(), arg()),
                "urem" => Ast::Bin(BinOp::URem, arg(), arg()),
                "sdiv" => Ast::Bin(BinOp::SDiv, arg(), arg()),
                "srem" => Ast::Bin(BinOp::SRem, arg(), arg()),
                "rotl" => Ast::Bin(BinOp::RotL, arg(), arg()),
                "rotr" => Ast::Bin(BinOp::RotR, arg(), arg()),
                "popcnt" => Ast::Un(UnOp::Popcnt, arg()),
                "clz" => Ast::Un(UnOp::Clz, arg()),
                "ctz" => Ast::Un(UnOp::Ctz, arg()),
                "bswap" => Ast::Un(UnOp::Bswap, arg()),
                "bitrev" => Ast::Un(UnOp::BitRev, arg()),
                _ => panic!("{t}"),
            };
        }
        if let Some(a) = self.lets.get(&t) {
            return a.clone();
        }
        let w = self.colon();
        Ast::Sym(t, w)
    }
}

/// The width of an expression, where its text says it.
fn width_said(a: &Ast, known: &HashMap<String, u16>) -> Option<u16> {
    match a {
        Ast::Num(_, w) => *w,
        Ast::Sym(n, w) => w.or(known.get(n).copied()),
        Ast::Un(_, a) => width_said(a, known),
        Ast::Bin(_, a, b) => width_said(a, known).or(width_said(b, known)),
        Ast::Rel(..) => Some(1),
        Ast::Zext(n, _) | Ast::Sext(n, _) => Some(*n),
        Ast::Extract(_, n, _) => Some(*n),
        Ast::Concat(a, b) => Some(width_said(a, known)? + width_said(b, known)?),
        Ast::Select(_, a, b) => width_said(a, known).or(width_said(b, known)),
    }
}

fn note_widths(a: &Ast, known: &mut HashMap<String, u16>) {
    match a {
        Ast::Num(..) => {}
        Ast::Sym(n, w) => {
            if let Some(w) = w {
                known.insert(n.clone(), *w);
            }
        }
        Ast::Un(_, a) | Ast::Zext(_, a) | Ast::Sext(_, a) | Ast::Extract(_, _, a) => note_widths(a, known),
        Ast::Bin(_, a, b) | Ast::Rel(_, a, b) | Ast::Concat(a, b) => {
            note_widths(a, known);
            note_widths(b, known);
        }
        Ast::Select(a, b, c) => {
            note_widths(a, known);
            note_widths(b, known);
            note_widths(c, known);
        }
    }
}

fn bits_of(w: u16, v: u128) -> BitVec {
    BitVec::from_bools((0..w).map(|i| i < 128 && (v >> i) & 1 == 1).collect())
}

fn elaborate(cx: &mut Context, a: &Ast, w: u16, dflt: u16, known: &HashMap<String, u16>) -> Expr {
    let wd = |n: u16| Width::new(n).unwrap();
    match a {
        Ast::Num(v, n) => cx.constant(&bits_of(n.unwrap_or(w), *v)).unwrap(),
        Ast::Sym(s, n) => {
            let n = n.or(known.get(s).copied()).unwrap_or(w);
            cx.symbol(key(s), wd(n)).unwrap()
        }
        Ast::Un(op, a) => {
            let a = elaborate(cx, a, w, dflt, known);
            cx.un(*op, a).unwrap()
        }
        Ast::Bin(op, a, b) => {
            let n = width_said(a, known).or(width_said(b, known)).unwrap_or(w);
            let a = elaborate(cx, a, n, dflt, known);
            let b = elaborate(cx, b, n, dflt, known);
            cx.bin(*op, a, b).unwrap()
        }
        Ast::Rel(op, a, b) => {
            let n = width_said(a, known).or(width_said(b, known)).unwrap_or(dflt);
            let a = elaborate(cx, a, n, dflt, known);
            let b = elaborate(cx, b, n, dflt, known);
            cx.compare(*op, a, b).unwrap()
        }
        Ast::Zext(n, a) => {
            let k = width_said(a, known).unwrap_or(dflt);
            let a = elaborate(cx, a, k, dflt, known);
            cx.zext(a, wd(*n)).unwrap()
        }
        Ast::Sext(n, a) => {
            let k = width_said(a, known).unwrap_or(dflt);
            let a = elaborate(cx, a, k, dflt, known);
            cx.sext(a, wd(*n)).unwrap()
        }
        Ast::Extract(lo, n, a) => {
            let k = width_said(a, known).unwrap_or(dflt);
            let a = elaborate(cx, a, k, dflt, known);
            cx.extract(a, *lo, wd(*n)).unwrap()
        }
        Ast::Concat(a, b) => {
            let k = width_said(a, known).unwrap_or(dflt);
            let a = elaborate(cx, a, k, dflt, known);
            let k = width_said(b, known).unwrap_or(dflt);
            let b = elaborate(cx, b, k, dflt, known);
            cx.concat(a, b).unwrap()
        }
        Ast::Select(c, a, b) => {
            let n = width_said(a, known).or(width_said(b, known)).unwrap_or(w);
            let c = elaborate(cx, c, 1, dflt, known);
            let a = elaborate(cx, a, n, dflt, known);
            let b = elaborate(cx, b, n, dflt, known);
            cx.select(c, a, b).unwrap()
        }
    }
}

fn operands(v: &NodeView) -> Vec<Expr> {
    match *v {
        NodeView::Const | NodeView::Sym(_) => vec![],
        NodeView::Un(_, a) | NodeView::Zext(a) | NodeView::Sext(a) | NodeView::Extract(a, _) => vec![a],
        NodeView::Bin(_, a, b) | NodeView::Cmp(_, a, b) | NodeView::Concat(a, b) => vec![a, b],
        NodeView::Select(a, b, c) => vec![a, b, c],
    }
}

/// The nodes of `roots`, operands first.
fn nodes_of(cx: &Context, roots: &[Expr]) -> Vec<Expr> {
    let mut out = Vec::new();
    let mut seen = HashSet::new();
    let mut stack: Vec<(Expr, bool)> = roots.iter().rev().map(|e| (*e, false)).collect();
    while let Some((e, done)) = stack.pop() {
        if done {
            out.push(e);
        } else if seen.insert(e) {
            stack.push((e, true));
            for k in operands(&cx.view(e).unwrap()).into_iter().rev() {
                stack.push((k, false));
            }
        }
    }
    out
}

/// A constant, as a signed number where it has more than one bit.
fn const_text(v: &BitVec) -> String {
    let w = v.len();
    let bit = |i: usize| v.bit(i).unwrap();
    if w > 1 && bit(w - 1) && w <= 120 {
        let mut m: i128 = -1;
        for i in 0..w {
            if !bit(i) {
                m -= 1 << i;
            }
        }
        return format!("{m}");
    }
    if (0..w).all(bit) && w > 1 {
        return "-1".to_string();
    }
    let top = (0..w).rev().find(|i| bit(*i)).unwrap_or(0);
    if top < 127 {
        let mut m: u128 = 0;
        for i in 0..=top {
            if bit(i) {
                m += 1 << i;
            }
        }
        return format!("{m}");
    }
    let mut s = String::new();
    for d in (0..=top / 4).rev() {
        let x = (0..4).filter(|i| d * 4 + i < w && bit(d * 4 + i)).map(|i| 1u32 << i).sum::<u32>();
        s.push(char::from_digit(x, 16).unwrap());
    }
    format!("0x{s}")
}

struct Shower<'a> {
    cx: &'a Context,
    names: HashMap<Expr, String>,
}

impl Shower<'_> {
    fn is_const(&self, e: Expr) -> bool {
        matches!(self.cx.view(e).unwrap(), NodeView::Const)
    }

    fn full(&self, e: Expr) -> String {
        match self.cx.as_const(e).unwrap() {
            Some(v) => format!("{}:{}", const_text(&v), v.len()),
            None => self.text(e, true),
        }
    }

    /// An operand beside another one that tells its width.
    fn side(&self, e: Expr, parens: bool) -> String {
        match self.cx.as_const(e).unwrap() {
            Some(v) => const_text(&v),
            None => {
                let infix = matches!(self.cx.view(e).unwrap(), NodeView::Bin(op, ..) if infix(op).is_some())
                    || matches!(self.cx.view(e).unwrap(), NodeView::Cmp(..));
                if parens && infix && !self.names.contains_key(&e) {
                    format!("({})", self.text(e, true))
                } else {
                    self.text(e, true)
                }
            }
        }
    }

    fn text(&self, e: Expr, named: bool) -> String {
        if named {
            if let Some(n) = self.names.get(&e) {
                return n.clone();
            }
        }
        let w = self.cx.width(e).unwrap().bits();
        match self.cx.view(e).unwrap() {
            NodeView::Const => self.full(e),
            NodeView::Sym(k) => name_of(k),
            NodeView::Un(op, a) => match op {
                UnOp::Not => format!("~{}", self.side(a, true)),
                UnOp::Neg => format!("-{}", self.side(a, true)),
                UnOp::Popcnt => format!("popcnt({})", self.full(a)),
                UnOp::Clz => format!("clz({})", self.full(a)),
                UnOp::Ctz => format!("ctz({})", self.full(a)),
                UnOp::Bswap => format!("bswap({})", self.full(a)),
                UnOp::BitRev => format!("bitrev({})", self.full(a)),
            },
            NodeView::Bin(op, a, b) => match infix(op) {
                Some(o) => {
                    let chain = matches!(op, BinOp::Add | BinOp::Mul | BinOp::And | BinOp::Or | BinOp::Xor);
                    let same = matches!(self.cx.view(a).unwrap(), NodeView::Bin(p, ..) if p == op) && chain;
                    let sum = matches!(op, BinOp::Add | BinOp::Sub);
                    let product = |e: Expr| sum && matches!(self.cx.view(e).unwrap(), NodeView::Bin(BinOp::Mul, ..));
                    format!("{} {o} {}", self.side(a, !same && !product(a)), self.side(b, !product(b)))
                }
                None => {
                    let f = match op {
                        BinOp::UDiv => "udiv",
                        BinOp::URem => "urem",
                        BinOp::SDiv => "sdiv",
                        BinOp::SRem => "srem",
                        BinOp::RotL => "rotl",
                        _ => "rotr",
                    };
                    format!("{f}({}, {})", self.full(a), self.full(b))
                }
            },
            NodeView::Cmp(op, a, b) => {
                let o = match op {
                    CmpOp::Eq => "==",
                    CmpOp::Ne => "!=",
                    CmpOp::Ult => "<u",
                    CmpOp::Ule => "<=u",
                    CmpOp::Slt => "<s",
                    CmpOp::Sle => "<=s",
                };
                format!("{} {o} {}", self.side(a, true), self.side(b, true))
            }
            NodeView::Zext(a) => format!("zext<{w}>({})", self.full(a)),
            NodeView::Sext(a) => format!("sext<{w}>({})", self.full(a)),
            NodeView::Extract(a, 0) => format!("trunc<{w}>({})", self.full(a)),
            NodeView::Extract(a, lo) => format!("extract<{lo}, {w}>({})", self.full(a)),
            NodeView::Concat(a, b) => format!("concat({}, {})", self.full(a), self.full(b)),
            NodeView::Select(c, a, b) => {
                format!("select({}, {}, {})", self.full(c), self.full(a), self.full(b))
            }
        }
    }
}

fn infix(op: BinOp) -> Option<&'static str> {
    Some(match op {
        BinOp::Add => "+",
        BinOp::Sub => "-",
        BinOp::Mul => "*",
        BinOp::And => "&",
        BinOp::Or => "|",
        BinOp::Xor => "^",
        BinOp::Shl => "<<",
        BinOp::LShr => ">>u",
        BinOp::AShr => ">>s",
        _ => return None,
    })
}

/// Expressions as text.
trait Text {
    fn sym(&mut self, name: &str, w: Width) -> Result<Expr, Error>;
    fn parse(&mut self, src: &str, o: &ParseOptions) -> Result<Expr, Error>;
    fn display(&self, e: Expr) -> String;
    fn cmp(&mut self, op: CmpOpExt, a: Expr, b: Expr) -> Result<Expr, Error>;
}

impl Text for Context {
    fn sym(&mut self, name: &str, w: Width) -> Result<Expr, Error> {
        self.symbol(key(name), w)
    }

    fn parse(&mut self, src: &str, o: &ParseOptions) -> Result<Expr, Error> {
        let mut p = Parser { toks: tokens(src), at: 0, lets: HashMap::new() };
        let a = p.program();
        let mut known = HashMap::new();
        note_widths(&a, &mut known);
        let w = width_said(&a, &known).unwrap_or(o.width);
        Ok(elaborate(self, &a, w, o.width, &known))
    }

    fn display(&self, e: Expr) -> String {
        let all = nodes_of(self, &[e]);
        let mut uses: HashMap<Expr, usize> = HashMap::new();
        for n in &all {
            for k in operands(&self.view(*n).unwrap()) {
                *uses.entry(k).or_insert(0) += 1;
            }
        }
        let mut s = Shower { cx: self, names: HashMap::new() };
        let mut out = String::new();
        for n in &all {
            if uses.get(n).copied().unwrap_or(0) > 1 && !operands(&self.view(*n).unwrap()).is_empty() {
                let name = format!("%{}", s.names.len());
                out.push_str(&format!("let {name} = {};\n", s.text(*n, false)));
                s.names.insert(*n, name);
            }
        }
        out + &s.full(e)
    }

    fn cmp(&mut self, op: CmpOpExt, a: Expr, b: Expr) -> Result<Expr, Error> {
        self.compare(op, a, b)
    }
}

// ----- random expressions -------------------------------------------------------------------------

const RELS: [CmpOpExt; 10] = [
    CmpOpExt::Eq,
    CmpOpExt::Ne,
    CmpOpExt::Ult,
    CmpOpExt::Ule,
    CmpOpExt::Ugt,
    CmpOpExt::Uge,
    CmpOpExt::Slt,
    CmpOpExt::Sle,
    CmpOpExt::Sgt,
    CmpOpExt::Sge,
];

const UNS: [UnOp; 6] = [UnOp::Not, UnOp::Neg, UnOp::Popcnt, UnOp::Clz, UnOp::Ctz, UnOp::BitRev];

const BINS: [BinOp; 15] = [
    BinOp::Add,
    BinOp::Sub,
    BinOp::Mul,
    BinOp::UDiv,
    BinOp::URem,
    BinOp::SDiv,
    BinOp::SRem,
    BinOp::And,
    BinOp::Or,
    BinOp::Xor,
    BinOp::Shl,
    BinOp::LShr,
    BinOp::AShr,
    BinOp::RotL,
    BinOp::RotR,
];

struct Rng(u64);

impl Rng {
    fn next(&mut self) -> u64 {
        self.0 = self.0.wrapping_add(0x9e37_79b9_7f4a_7c15);
        let mut z = self.0;
        z = (z ^ (z >> 30)).wrapping_mul(0xbf58_476d_1ce4_e5b9);
        z = (z ^ (z >> 27)).wrapping_mul(0x94d0_49bb_1331_11eb);
        z ^ (z >> 31)
    }

    fn below(&mut self, n: u64) -> u64 {
        self.next() % n
    }

    fn chance(&mut self, a: u64, b: u64) -> bool {
        self.below(b) < a
    }

    fn value(&mut self, w: u16) -> BitVec {
        let v: Vec<bool> = match self.below(6) {
            0 => vec![false; w as usize],
            1 => vec![true; w as usize],
            2 => {
                let k = self.below(u64::from(w)) as u16;
                (0..w).map(|i| i == k).collect()
            }
            3 => {
                let x = self.below(16);
                (0..w).map(|i| i < 8 && (x >> i) & 1 == 1).collect()
            }
            _ => (0..w).map(|_| self.chance(1, 2)).collect(),
        };
        BitVec::from_bools(v)
    }
}

struct Gen {
    rng: Rng,
    max_w: u16,
}

fn generator(seed: u64) -> Gen {
    Gen { rng: Rng(seed), max_w: 6 }
}

impl Gen {
    fn constant(&mut self, w: u16) -> BitVec {
        self.rng.value(w)
    }

    /// A random expression of `w` bits over every operator.
    fn expr(&mut self, cx: &mut Context, w: u16, depth: u32) -> (Expr, u32) {
        let width = Width::new(w).unwrap();
        if depth == 0 || self.rng.chance(1, 6) {
            let e = if self.rng.chance(1, 4) {
                let v = self.constant(w);
                cx.constant(&v).unwrap()
            } else {
                let n = ["a", "b", "c"][self.rng.below(3) as usize];
                cx.sym(&format!("{n}{w}"), width).unwrap()
            };
            return (e, depth);
        }
        let d = depth - 1;
        let e = match self.rng.below(10) {
            0 => {
                let a = self.expr(cx, w, d).0;
                cx.un(UNS[self.rng.below(6) as usize], a).unwrap()
            }
            1 if w > 1 => {
                let n = 1 + self.rng.below(u64::from(w) - 1) as u16;
                let a = self.expr(cx, n, d).0;
                if self.rng.chance(1, 2) {
                    cx.zext(a, width).unwrap()
                } else {
                    cx.sext(a, width).unwrap()
                }
            }
            2 if w < self.max_w => {
                let n = w + 1 + self.rng.below(u64::from(self.max_w - w)) as u16;
                let a = self.expr(cx, n, d).0;
                let lo = self.rng.below(u64::from(n - w) + 1) as u16;
                cx.extract(a, lo, width).unwrap()
            }
            3 if w > 1 => {
                let n = 1 + self.rng.below(u64::from(w) - 1) as u16;
                let (a, b) = (self.expr(cx, n, d).0, self.expr(cx, w - n, d).0);
                cx.concat(a, b).unwrap()
            }
            4 => {
                let c = self.expr(cx, 1, d).0;
                let (a, b) = (self.expr(cx, w, d).0, self.expr(cx, w, d).0);
                cx.select(c, a, b).unwrap()
            }
            5 if w == 1 => {
                let n = 1 + self.rng.below(u64::from(self.max_w)) as u16;
                let (a, b) = (self.expr(cx, n, d).0, self.expr(cx, n, d).0);
                cx.compare(RELS[self.rng.below(10) as usize], a, b).unwrap()
            }
            _ => {
                let (a, b) = (self.expr(cx, w, d).0, self.expr(cx, w, d).0);
                cx.bin(BINS[self.rng.below(15) as usize], a, b).unwrap()
            }
        };
        (e, depth)
    }
}

/// The symbols of two expressions, with their widths.
fn symbols(cx: &Context, roots: &[Expr]) -> BTreeMap<u64, u16> {
    let mut out = BTreeMap::new();
    for e in nodes_of(cx, roots) {
        if let NodeView::Sym(k) = cx.view(e).unwrap() {
            out.insert(k, cx.width(e).unwrap().bits());
        }
    }
    out
}

/// Whether two expressions agree: everywhere where their symbols have few bits, else at some
/// values.
fn equivalent(cx: &mut Context, a: Expr, b: Expr, rng: &mut Rng) -> bool {
    if a == b {
        return true;
    }
    let syms: Vec<(u64, u16)> = symbols(cx, &[a, b]).into_iter().collect();
    let total: u32 = syms.iter().map(|s| u32::from(s.1)).sum();
    let agree = |env: &Vec<(u64, BitVec)>| cx.eval(a, env).unwrap().same(&cx.eval(b, env).unwrap());
    if total <= 9 {
        for x in 0..(1u64 << total) {
            let mut at = 0;
            let mut env = Vec::new();
            for (k, w) in &syms {
                env.push((*k, bits_of(*w, u128::from(x >> at) & ((1 << w) - 1))));
                at += w;
            }
            if !agree(&env) {
                return false;
            }
        }
        return true;
    }
    for _ in 0..40 {
        let env: Vec<(u64, BitVec)> = syms.iter().map(|(k, w)| (*k, rng.value(*w))).collect();
        if !agree(&env) {
            return false;
        }
    }
    true
}

/// How many nodes `roots` have together.
fn dag(cx: &mut Context, roots: &[Expr]) -> u32 {
    nodes_of(cx, roots).len() as u32
}

/// An engine running `phases` with the default verification: the tests' own equivalence
/// checks are the oracle (strict verification would reject a wrong rewrite before any test
/// could see it).
fn engine(phases: Vec<Phase>) -> Engine {
    Engine::builder().builtin().strategy(Strategy::new("t", phases)).build().unwrap()
}

fn simplify(eng: &Engine, src: &str, w: u16) -> String {
    let mut cx = Context::new();
    let e = cx.parse(src, &ParseOptions::width(Width::new(w).unwrap())).unwrap();
    let out = eng.simplify(&mut cx, e).unwrap();
    cx.display(out.expr).to_string()
}

/// Checks what `eng` makes of `src`.
fn becomes(eng: &Engine, src: &str, want: &str, w: u16) {
    let mut cx = Context::new();
    let o = ParseOptions::width(Width::new(w).unwrap());
    let e = cx.parse(src, &o).unwrap();
    let want = cx.parse(want, &o).unwrap();
    let out = eng.simplify(&mut cx, e).unwrap();
    assert_eq!(out.expr, want, "{src}: got {}", cx.display(out.expr));
}

/// `e` with `y` in place of `x`.
fn substitute(cx: &mut Context, e: Expr, x: Expr, y: Expr) -> Expr {
    let mut made: HashMap<Expr, Expr> = HashMap::new();
    for n in nodes_of(cx, &[e]) {
        let w = cx.width(n).unwrap();
        let at = |k: Expr| made[&k];
        let m = if n == x {
            y
        } else {
            match cx.view(n).unwrap() {
                NodeView::Const | NodeView::Sym(_) => n,
                NodeView::Un(op, a) => cx.un(op, at(a)).unwrap(),
                NodeView::Bin(op, a, b) => cx.bin(op, at(a), at(b)).unwrap(),
                NodeView::Cmp(op, a, b) => {
                    let op = match op {
                        CmpOp::Eq => CmpOpExt::Eq,
                        CmpOp::Ne => CmpOpExt::Ne,
                        CmpOp::Ult => CmpOpExt::Ult,
                        CmpOp::Ule => CmpOpExt::Ule,
                        CmpOp::Slt => CmpOpExt::Slt,
                        CmpOp::Sle => CmpOpExt::Sle,
                    };
                    cx.compare(op, at(a), at(b)).unwrap()
                }
                NodeView::Zext(a) => cx.zext(at(a), w).unwrap(),
                NodeView::Sext(a) => cx.sext(at(a), w).unwrap(),
                NodeView::Extract(a, lo) => cx.extract(at(a), lo, w).unwrap(),
                NodeView::Concat(a, b) => cx.concat(at(a), at(b)).unwrap(),
                NodeView::Select(c, a, b) => cx.select(at(c), at(a), at(b)).unwrap(),
            }
        };
        made.insert(n, m);
    }
    made[&e]
}

/// A random chain of layers over `x`: invertible ones (with constant or symbol parameters, and
/// triangular `v ⊙ g(v)`) and non-invertible ones (masks, shifts, feeding `x` back in).
fn layered(g: &mut Gen, cx: &mut Context, x: Expr, w: u16, depth: u32) -> Expr {
    let wd = Width::new(w).unwrap();
    let mut e = x;
    for _ in 0..depth {
        let k = if g.rng.chance(1, 4) {
            cx.sym("p", wd).unwrap()
        } else {
            let v = g.constant(w);
            cx.constant(&v).unwrap()
        };
        let sh = cx.constant_u64(wd, 1 + g.rng.below(u64::from(w))).unwrap();
        e = match g.rng.below(12) {
            0 => cx.bin(BinOp::Add, e, k).unwrap(),
            1 => cx.bin(BinOp::Xor, e, k).unwrap(),
            2 => cx.bin(BinOp::Mul, e, k).unwrap(),
            3 => cx.bin(BinOp::Sub, k, e).unwrap(),
            4 => cx.bin(BinOp::RotL, e, k).unwrap(),
            5 => cx
                .un(
                    [UnOp::Not, UnOp::Neg, UnOp::BitRev][g.rng.below(3) as usize],
                    e,
                )
                .unwrap(),
            6 => {
                let t = cx.bin(BinOp::LShr, e, sh).unwrap();
                cx.bin(BinOp::Xor, e, t).unwrap()
            }
            7 => {
                let t = cx.bin(BinOp::Shl, e, sh).unwrap();
                let t = cx.bin(BinOp::And, t, k).unwrap();
                cx.bin(BinOp::Sub, e, t).unwrap()
            }
            8 => {
                // The mixer's involution, scaled to the width.
                let a = cx.constant_u64(wd, u64::from(w / 2)).unwrap();
                let b = cx.constant_u64(wd, u64::from(w - w / 4 - 1)).unwrap();
                let (s1, s2) = (
                    cx.bin(BinOp::LShr, e, a).unwrap(),
                    cx.bin(BinOp::LShr, e, b).unwrap(),
                );
                let t = cx.bin(BinOp::LShr, s1, s2).unwrap();
                cx.bin(BinOp::Xor, e, t).unwrap()
            }
            9 => cx.bin(BinOp::And, e, k).unwrap(),
            10 => cx.bin(BinOp::LShr, e, sh).unwrap(),
            _ => cx.bin(BinOp::Xor, e, x).unwrap(),
        };
    }
    e
}

#[test]
fn invert_is_sound_and_idempotent() {
    let eng = engine(vec![Phase::Invert]);
    let std = Engine::standard();
    // Strict verification samples every rewrite and checks both sides' facts meet.
    let strict = Engine::builder()
        .builtin()
        .strategy(Strategy::standard())
        .verify(Verify::strict())
        .build()
        .unwrap();
    let mut g = generator(0x1a7e_0001);
    let mut rng = Rng(11);
    let mut changed = 0;
    for i in 0..1500 {
        let mut cx = Context::new();
        let w = if i % 10 == 0 {
            [16, 64, 128, 257][g.rng.below(4) as usize]
        } else {
            1 + g.rng.below(4) as u16
        };
        let wd = Width::new(w).unwrap();
        let (x, y) = (cx.sym("x", wd).unwrap(), cx.sym("y", wd).unwrap());
        let depth = 1 + g.rng.below(4) as u32;
        let f = layered(&mut g, &mut cx, x, w, depth);
        // Sometimes widened by an injective map that is not onto: then a constant may have no
        // preimage at all.
        let widen = match g.rng.below(8) {
            _ if w >= 256 => None,
            0 => Some((0, w + 1 + g.rng.below(3) as u16)),
            1 => Some((1, w + 1 + g.rng.below(3) as u16)),
            2 => Some((2, w + 1 + g.rng.below(3) as u16)),
            _ => None,
        };
        let lo = widen.map(|(_, w2)| g.constant(w2 - w));
        let wide = |cx: &mut Context, e: Expr| -> Expr {
            let Some((how, w2)) = widen else {
                return e;
            };
            let wd2 = Width::new(w2).unwrap();
            match how {
                0 => cx.zext(e, wd2).unwrap(),
                1 => cx.sext(e, wd2).unwrap(),
                _ => {
                    let k = cx.constant(lo.as_ref().unwrap()).unwrap();
                    cx.concat(e, k).unwrap()
                }
            }
        };
        let fw = wide(&mut cx, f);
        let wc = cx.width(fw).unwrap();
        let op = [CmpOpExt::Eq, CmpOpExt::Ne, CmpOpExt::Ult][g.rng.below(3) as usize];
        let e = match i % 5 {
            // Against a constant: often an actual value of the chain, so it is solvable.
            0 | 1 => {
                let c = if g.rng.chance(1, 2) {
                    let xv = g.constant(w);
                    cx.eval(fw, &vec![(key("x"), xv)]).unwrap()
                } else {
                    g.constant(wc.bits())
                };
                let c = cx.constant(&c).unwrap();
                cx.cmp(op, fw, c).unwrap()
            }
            // The same chain over another value, or a different one.
            2 => {
                let fy = substitute(&mut cx, fw, x, y);
                cx.cmp(op, fw, fy).unwrap()
            }
            3 => {
                let depth = 1 + g.rng.below(3) as u32;
                let h = layered(&mut g, &mut cx, y, w, depth);
                let h = wide(&mut cx, h);
                cx.cmp(op, fw, h).unwrap()
            }
            // Or-trees against zero, over one value or two.
            _ => {
                let other = if g.rng.chance(1, 2) { x } else { y };
                let depth = 1 + g.rng.below(3) as u32;
                let h = layered(&mut g, &mut cx, other, w, depth);
                let h = wide(&mut cx, h);
                let o = cx.bin(BinOp::Or, fw, h).unwrap();
                let z = cx.constant(&BitVec::zero(wc)).unwrap();
                cx.cmp(op, o, z).unwrap()
            }
        };
        for engine in [&eng, &std, &strict] {
            let out = engine.run(&mut cx, &[e], Run::default()).unwrap();
            let r = &out.roots[0];
            assert_eq!(r.end, End::Completed);
            assert_eq!(out.stats.rejected, 0, "{}", cx.display(e));
            assert!(
                equivalent(&mut cx, e, r.expr, &mut rng),
                "{} vs {}",
                cx.display(e),
                cx.display(r.expr)
            );
            changed += u64::from(r.changed);
            cx.forget_results();
            let again = engine.run(&mut cx, &[r.expr], Run::default()).unwrap();
            assert!(
                !again.roots[0].changed,
                "not idempotent: {} -> {}",
                cx.display(r.expr),
                cx.display(again.roots[0].expr)
            );
        }
    }
    assert!(changed > 800, "{changed}");
}

/// Checks `src` simplifies to `want` (both parsed at `w` bits) under `eng`.
fn check_to(eng: &Engine, src: &str, want: &str, w: u16) {
    let mut cx = Context::new();
    let o = ParseOptions::width(Width::new(w).unwrap());
    let e = cx.parse(src, &o).unwrap();
    let out = eng.simplify(&mut cx, e).unwrap();
    let want = cx.parse(want, &o).unwrap();
    assert_eq!(out.expr, want, "{src} gave {}", cx.display(out.expr));
}

#[test]
fn invert_fixtures() {
    let eng = Engine::standard();
    // Cancelling one layer on both sides, repeatedly.
    check_to(&eng, "x + 7 == y + 7", "x == y", 8);
    check_to(&eng, "(x ^ z) * 3 != (y ^ z) * 3", "x != y", 8);
    check_to(&eng, "rotl(x, z) == rotl(y, z)", "x == y", 8);
    check_to(&eng, "z - x == z - y", "x == y", 8);
    check_to(&eng, "zext<16>(x) == zext<16>(y)", "x == y", 8);
    // ... never through a map that is not injective.
    check_to(&eng, "x * 6 == y * 6", "x * 6 == y * 6", 8);
    check_to(&eng, "(x & z) == (y & z)", "(x & z) == (y & z)", 8);
    check_to(
        &eng,
        "(x ^ z) * w == (y ^ z) * w",
        "(x ^ z) * w == (y ^ z) * w",
        8,
    );
    // Moving a constant across: 5 * 3⁻¹ = 5 * 171 = 0x57 (mod 2^8).
    check_to(&eng, "x * 3 == 5", "x == 0x57", 8);
    check_to(&eng, "rotl(x, 3) != 5", "x != 0xa0", 8);
    check_to(&eng, "~(x - 9) == 0", "x == 8", 8);
    // A triangular map: the high nibble first, then the low one.
    check_to(&eng, "(x ^ (x >>u 4)) == 0x5a", "x == 0x5f", 8);
    check_to(&eng, "(x ^ (x >>u 4)) == (y ^ (y >>u 4))", "x == y", 8);
    // No preimage at all.
    check_to(&eng, "zext<16>(x) == 0x1ff", "false", 8);
    check_to(&eng, "concat(x, 1:4) == 0x12:12", "false", 8);
    check_to(&eng, "concat(x, 2:4) != 0x12:12", "x != 1", 8);
    // Zero or-trees are solved leaf by leaf.
    check_to(&eng, "((x ^ 1) | (x ^ 2)) == 0", "false", 8);
    check_to(
        &eng,
        "((x + 1) | (y * 3)) == 0",
        "(x == 0xff) & (y == 0)",
        8,
    );
    check_to(
        &eng,
        "((x + 1) | (y * 3)) != 0",
        "(x != 0xff) | (y != 0)",
        8,
    );
    // Orderings are left alone.
    check_to(&eng, "x + 7 <u y + 7", "x + 7 <u y + 7", 8);
    check_to(&eng, "x * 3 <u 5", "x * 3 <u 5", 8);
    // The pass alone (fact folding would decide some of these first): no preimage.
    let only = engine(vec![Phase::Invert]);
    check_to(&only, "zext<16>(x + 1) != 0x1ff", "true", 8);
    check_to(&only, "sext<16>(x ^ 3) == 0x80", "false", 8);
    check_to(&only, "sext<16>(x ^ 3) == 0xff80", "x == 0x83", 8);
    check_to(&only, "(concat(x, 1:4) | y:12) == 0", "false", 8);
    check_to(&only, "(concat(x, 1:4) | y:12) != 0", "true", 8);
    check_to(
        &only,
        "(zext<16>(x) | concat(y, 0:8)) == 0",
        "(x == 0) & (y == 0)",
        8,
    );
    // `zext<16>(x)` is never `0xffff`; `sext<16>(x)` is, at one value.
    check_to(
        &only,
        "(zext<16>(x) & concat(y, 0xff:8)) == 0xffff",
        "false",
        8,
    );
    check_to(
        &only,
        "(sext<16>(x) & concat(y, 0xff:8)) == 0xffff",
        "(x == 0xff) & (y == 0xff)",
        8,
    );
}

#[test]
fn invert_commits_like_a_rule_through_sharing() {
    // The hash stays live as another root; its comparison is solved anyway.
    let eng = Engine::standard();
    let mut cx = Context::new();
    let o = ParseOptions::width(Width::new(64).unwrap());
    let h = cx.parse(
            "let m = (x ^ 0x1234) * 0x87c37b91114253d5; m ^ (m >>u 29)",
            &o,
        )
        .unwrap();
    let c = cx.constant_u64(Width::new(64).unwrap(), 0xfeed).unwrap();
    let e = cx.cmp(CmpOpExt::Eq, h, c).unwrap();
    let out = eng.run(&mut cx, &[h, e], Run::default()).unwrap();
    assert!(!out.roots[0].changed);
    let r = out.roots[1].expr;
    let NodeView::Cmp(CmpOp::Eq, a, k) = cx.view(r).unwrap() else {
        panic!("{}", cx.display(r));
    };
    assert_eq!(cx.display(a).to_string(), "x");
    // And the constant is the preimage.
    let v = cx.as_const(k).unwrap().unwrap();
    assert_eq!(cx.eval(h, &vec![(key("x"), v)]).unwrap().to_u64(), Some(0xfeed));
}

#[test]
fn invert_relies_on_the_constraints_it_uses() {
    let eng = Engine::standard();
    let mut cx = Context::new();
    let o = ParseOptions::width(Width::new(32).unwrap());
    let e = cx.parse("x * k == y * k", &o).unwrap();
    // `k` is not known to be odd: nothing to cancel.
    assert!(!eng.simplify(&mut cx, e).unwrap().changed);
    let odd = cx.parse("(k & 1) == 1", &o).unwrap();
    let other = cx.parse("x <u 100", &o).unwrap();
    let mut a = Assumptions::new();
    let u = a.assume_true(&cx, other).unwrap();
    let id = a.assume_true(&cx, odd).unwrap();
    let out = eng
        .run(&mut cx, &[e], Run::default().with_assumptions(&a))
        .unwrap()
        .roots
        .remove(0);
    assert_eq!(cx.display(out.expr).to_string(), "x == y");
    assert!(
        out.relies_on.may_use(id) && !out.relies_on.may_use(u),
        "{:?}",
        out.relies_on
    );
}

#[test]
fn invert_obeys_budgets_and_the_host_veto() {
    let mut cx = Context::new();
    let o = ParseOptions::width(Width::new(64).unwrap());
    let src = "let m = (x ^ 0x1234) * 0x87c37b91114253d5; \
               let s = m ^ ((m >>u 32) >>u (m >>u 60)); s * 0x87c37b91114253d5 == 0x42";
    let e = cx.parse(src, &o).unwrap();
    let eng = engine(vec![Phase::Invert]);
    // Every budget from nothing up: a sound result, never a panic.
    let mut rng = Rng(5);
    let mut done = false;
    for work in (0..3000).step_by(61) {
        cx.forget_results();
        let run = Run::default().with_per_call(Budget::default().with_pass_work(work));
        let r = eng.run(&mut cx, &[e], run).unwrap().roots.remove(0);
        assert!(equivalent(&mut cx, e, r.expr, &mut rng));
        done |= r.end == End::Completed && r.changed;
    }
    assert!(done);
    // The host can refuse the rewrite.
    struct No;
    impl Hooks for No {
        fn allows(&self, _: &Context, _: Expr, _: Expr, by: By<'_>) -> bool {
            !matches!(by, By::Pass(PassKind::Invert))
        }

        fn admits(&self, _: &Context, _: Expr, _: Expr, by: By<'_>) -> bool {
            !matches!(by, By::Pass(PassKind::Invert))
        }
    }
    cx.forget_results();
    let r = eng
        .run(&mut cx, &[e], Run::default().with_hooks(&No))
        .unwrap();
    assert!(!r.roots[0].changed);
    assert!(r.stats.hook_vetoes > 0);
}
