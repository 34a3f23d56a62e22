#![allow(dead_code, unused_imports, clippy::all)]

use bitwright::bitvec::{BitVec, Width};
use bitwright::engine::budget::{Admission, Allowance, Budget, Clock, Deadline};
use bitwright::engine::builder::EngineBuilder;
use bitwright::engine::link::Engine;
use bitwright::engine::run::{End, Outcome, RootOutcome, Run};
use bitwright::engine::stats::{By, Event, Hooks, Observer, PassTable};
use bitwright::engine::strategy::{Phase, Sharing, Strategy, Verify};
use bitwright::expr::{Context, Error, Expr, NodeView};
use bitwright::facts::store::Assumptions;
use bitwright::ops::{BinOp, CmpOp, CmpOpExt, UnOp};
use bitwright::engine::pass::tables::{search, T};
use std::collections::{BTreeMap, HashMap, HashSet};

// ----- text ---------------------------------------------------------------------------------------

/// The key of a symbol: its name, of at most eight letters.
fn key(name: &str) -> u64 {
    assert!(!name.is_empty() && name.len() <= 8, "{name}");
    name.bytes().fold(0u64, |k, b| (k << 8) | u64::from(b))
}

fn name_of(key: u64) -> String {
    key.to_be_bytes().iter().filter(|b| **b != 0).map(|b| *b as char).collect()
}

/// The width of symbols and numbers that say none.
struct ParseOptions {
    width: u16,
}

impl ParseOptions {
    fn width(w: Width) -> ParseOptions {
        ParseOptions { width: w.bits() }
    }
}

#[derive(Clone, Debug)]
enum Ast {
    Num(u128, Option<u16>),
    Sym(String, Option<u16>),
    Un(UnOp, Box<Ast>),
    Bin(BinOp, Box<Ast>, Box<Ast>),
    Rel(CmpOpExt, Box<Ast>, Box<Ast>),
    Zext(u16, Box<Ast>),
    Sext(u16, Box<Ast>),
    Extract(u16, u16, Box<Ast>),
    Concat(Box<Ast>, Box<Ast>),
    Select(Box<Ast>, Box<Ast>, Box<Ast>),
}

fn tokens(src: &str) -> Vec<String> {
    let s: Vec<char> = src.chars().collect();
    let mut out = Vec::new();
    let mut i = 0;
    while i < s.len() {
        let c = s[i];
        if c.is_whitespace() {
            i += 1;
            continue;
        }
        let start = i;
        if c.is_alphanumeric() || c == '_' || c == '%' {
            i += 1;
            while i < s.len() && (s[i].is_alphanumeric() || s[i] == '_') {
                i += 1;
            }
        } else {
            let mut n = 1;
            for op in [">>u", ">>s", "<=u", "<=s", ">=u", ">=s", "<<", "==", "!=", "<u", "<s", ">u", ">s"] {
                let o: Vec<char> = op.chars().collect();
                if s[i..].starts_with(&o) {
                    n = o.len();
                    break;
                }
            }
            i += n;
        }
        out.push(s[start..i].iter().collect());
    }
    out
}

struct Parser {
    toks: Vec<String>,
    at: usize,
    lets: HashMap<String, Ast>,
}

impl Parser {
    fn peek(&self) -> &str {
        self.toks.get(self.at).map(|s| s.as_str()).unwrap_or("")
    }

    fn next(&mut self) -> String {
        let t = self.peek().to_string();
        self.at += 1;
        t
    }

    fn want(&mut self, t: &str) {
        let got = self.next();
        assert_eq!(got, t, "in {:?}", self.toks);
    }

    fn number(&mut self) -> u16 {
        self.next().parse().unwrap()
    }

    fn program(&mut self) -> Ast {
        while self.peek() == "let" {
            self.next();
            let name = self.next();
            self.want("=");
            let a = self.expr(0);
            self.want(";");
            self.lets.insert(name, a);
        }
        let a = self.expr(0);
        assert_eq!(self.at, self.toks.len(), "rest of {:?}", self.toks);
        a
    }

    fn expr(&mut self, level: usize) -> Ast {
        if level == 6 {
            return self.unary();
        }
        let mut a = self.expr(level + 1);
        loop {
            let rel = match self.peek() {
                "==" => Some(CmpOpExt::Eq),
                "!=" => Some(CmpOpExt::Ne),
                "<u" => Some(CmpOpExt::Ult),
                "<=u" => Some(CmpOpExt::Ule),
                ">u" => Some(CmpOpExt::Ugt),
                ">=u" => Some(CmpOpExt::Uge),
                "<s" => Some(CmpOpExt::Slt),
                "<=s" => Some(CmpOpExt::Sle),
                ">s" => Some(CmpOpExt::Sgt),
                ">=s" => Some(CmpOpExt::Sge),
                _ => None,
            };
            if let (0, Some(op)) = (level, rel) {
                self.next();
                let b = self.expr(level + 1);
                a = Ast::Rel(op, Box::new(a), Box::new(b));
                continue;
            }
            let op = match (level, self.peek()) {
                (1, "|") => BinOp::Or,
                (2, "^") => BinOp::Xor,
                (3, "&") => BinOp::And,
                (4, "<<") => BinOp::Shl,
                (4, ">>u") => BinOp::LShr,
                (4, ">>s") => BinOp::AShr,
                (5, "+") => BinOp::Add,
                (5, "-") => BinOp::Sub,
                _ => return a,
            };
            self.next();
            let b = self.expr(level + 1);
            a = Ast::Bin(op, Box::new(a), Box::new(b));
        }
    }

    fn unary(&mut self) -> Ast {
        let mut a = self.atom();
        while self.peek() == "*" {
            self.next();
            let b = self.atom();
            a = Ast::Bin(BinOp::Mul, Box::new(a), Box::new(b));
        }
        a
    }

    fn call(&mut self) -> Vec<Ast> {
        self.want("(");
        let mut args = Vec::new();
        loop {
            args.push(self.expr(0));
            if self.next() == ")" {
                return args;
            }
        }
    }

    fn colon(&mut self) -> Option<u16> {
        if self.peek() == ":" {
            self.next();
            Some(self.number())
        } else {
            None
        }
    }

    fn atom(&mut self) -> Ast {
        let t = self.next();
        match t.as_str() {
            "(" => {
                let a = self.expr(0);
                self.want(")");
                return a;
            }
            "~" => return Ast::Un(UnOp::Not, Box::new(self.atom())),
            "-" => return Ast::Un(UnOp::Neg, Box::new(self.atom())),
            "true" => return Ast::Num(1, Some(1)),
            "false" => return Ast::Num(0, Some(1)),
            _ => {}
        }
        if t.starts_with(|c: char| c.is_ascii_digit()) {
            let v = match t.strip_prefix("0x") {
                Some(h) => u128::from_str_radix(h, 16).unwrap(),
                None => t.parse().unwrap(),
            };
            let w = self.colon();
            return Ast::Num(v, w);
        }
        if self.peek() == "<" {
            self.next();
            let n = self.number();
            let m = if self.peek() == "," {
                self.next();
                Some(self.number())
            } else {
                None
            };
            self.want(">");
            let a = Box::new(self.call().remove(0));
            return match t.as_str() {
                "zext" => Ast::Zext(n, a),
                "sext" => Ast::Sext(n, a),
                "trunc" => Ast::Extract(0, n, a),
                "extract" => Ast::Extract(n, m.unwrap(), a),
                _ => panic!("{t}"),
            };
        }
        if self.peek() == "(" {
            let mut args = self.call();
            let mut arg = || Box::new(args.remove(0));
            return match t.as_str() {
                "select" => Ast::Select(arg(), arg(), arg()),
                "concat" => Ast::Concat(arg(), arg()),
                "udiv" => Ast::Bin(BinOp::UDiv, arg(), arg()),
                "urem" => Ast::Bin(BinOp::URem, arg(), arg()),
                "sdiv" => Ast::Bin(BinOp::SDiv, arg(), arg()),
                "srem" => Ast::Bin(BinOp::SRem, arg(), arg()),
                "rotl" => Ast::Bin(BinOp::RotL, arg(), arg()),
                "rotr" => Ast::Bin(BinOp::RotR, arg(), arg()),
                "popcnt" => Ast::Un(UnOp::Popcnt, arg()),
                "clz" => Ast::Un(UnOp::Clz, arg()),
                "ctz" => Ast::Un(UnOp::Ctz, arg()),
                "bswap" => Ast::Un(UnOp::Bswap, arg()),
                "bitrev" => Ast::Un(UnOp::BitRev, arg()),
                _ => panic!("{t}"),
            };
        }
        if let Some(a) = self.lets.get(&t) {
            return a.clone();
        }
        let w = self.colon();
        Ast::Sym(t, w)
    }
}

/// The width of an expression, where its text says it.
fn width_said(a: &Ast, known: &HashMap<String, u16>) -> Option<u16> {
    match a {
        Ast::Num(_, w) => *w,
        Ast::Sym(n, w) => w.or(known.get(n).copied()),
        Ast::Un(_, a) => width_said(a, known),
        Ast::Bin(_, a, b) => width_said(a, known).or(width_said(b, known)),
        Ast::Rel(..) => Some(1),
        Ast::Zext(n, _) | Ast::Sext(n, _) => Some(*n),
        Ast::Extract(_, n, _) => Some(*n),
        Ast::Concat(a, b) => Some(width_said(a, known)? + width_said(b, known)?),
        Ast::Select(_, a, b) => width_said(a, known).or(width_said(b, known)),
    }
}

fn note_widths(a: &Ast, known: &mut HashMap<String, u16>) {
    match a {
        Ast::Num(..) => {}
        Ast::Sym(n, w) => {
            if let Some(w) = w {
                known.insert(n.clone(), *w);
            }
        }
        Ast::Un(_, a) | Ast::Zext(_, a) | Ast::Sext(_, a) | Ast::Extract(_, _, a) => note_widths(a, known),
        Ast::Bin(_, a, b) | Ast::Rel(_, a, b) | Ast::Concat(a, b) => {
            note_widths(a, known);
            note_widths(b, known);
        }
        Ast::Select(a, b, c) => {
            note_widths(a, known);
            note_widths(b, known);
            note_widths(c, known);
        }
    }
}

fn bits_of(w: u16, v: u128) -> BitVec {
    BitVec::from_bools((0..w).map(|i| i < 128 && (v >> i) & 1 == 1).collect())
}

fn elaborate(cx: &mut Context, a: &Ast, w: u16, dflt: u16, known: &HashMap<String, u16>) -> Expr {
    let wd = |n: u16| Width::new(n).unwrap();
    match a {
        Ast::Num(v, n) => cx.constant(&bits_of(n.unwrap_or(w), *v)).unwrap(),
        Ast::Sym(s, n) => {
            let n = n.or(known.get(s).copied()).unwrap_or(w);
            cx.symbol(key(s), wd(n)).unwrap()
        }
        Ast::Un(op, a) => {
            let a = elaborate(cx, a, w, dflt, known);
            cx.un(*op, a).unwrap()
        }
        Ast::Bin(op, a, b) => {
            let n = width_said(a, known).or(width_said(b, known)).unwrap_or(w);
            let a = elaborate(cx, a, n, dflt, known);
            let b = elaborate(cx, b, n, dflt, known);
            cx.bin(*op, a, b).unwrap()
        }
        Ast::Rel(op, a, b) => {
            let n = width_said(a, known).or(width_said(b, known)).unwrap_or(dflt);
            let a = elaborate(cx, a, n, dflt, known);
            let b = elaborate(cx, b, n, dflt, known);
            cx.compare(*op, a, b).unwrap()
        }
        Ast::Zext(n, a) => {
            let k = width_said(a, known).unwrap_or(dflt);
            let a = elaborate(cx, a, k, dflt, known);
            cx.zext(a, wd(*n)).unwrap()
        }
        Ast::Sext(n, a) => {
            let k = width_said(a, known).unwrap_or(dflt);
            let a = elaborate(cx, a, k, dflt, known);
            cx.sext(a, wd(*n)).unwrap()
        }
        Ast::Extract(lo, n, a) => {
            let k = width_said(a, known).unwrap_or(dflt);
            let a = elaborate(cx, a, k, dflt, known);
            cx.extract(a, *lo, wd(*n)).unwrap()
        }
        Ast::Concat(a, b) => {
            let k = width_said(a, known).unwrap_or(dflt);
            let a = elaborate(cx, a, k, dflt, known);
            let k = width_said(b, known).unwrap_or(dflt);
            let b = elaborate(cx, b, k, dflt, known);
            cx.concat(a, b).unwrap()
        }
        Ast::Select(c, a, b) => {
            let n = width_said(a, known).or(width_said(b, known)).unwrap_or(w);
            let c = elaborate(cx, c, 1, dflt, known);
            let a = elaborate(cx, a, n, dflt, known);
            let b = elaborate(cx, b, n, dflt, known);
            cx.select(c, a, b).unwrap()
        }
    }
}

fn operands(v: &NodeView) -> Vec<Expr> {
    match *v {
        NodeView::Const | NodeView::Sym(_) => vec![],
        NodeView::Un(_, a) | NodeView::Zext(a) | NodeView::Sext(a) | NodeView::Extract(a, _) => vec![a],
        NodeView::Bin(_, a, b) | NodeView::Cmp(_, a, b) | NodeView::Concat(a, b) => vec![a, b],
        NodeView::Select(a, b, c) => vec![a, b, c],
    }
}

/// The nodes of `roots`, operands first.
fn nodes_of(cx: &Context, roots: &[Expr]) -> Vec<Expr> {
    let mut out = Vec::new();
    let mut seen = HashSet::new();
    let mut stack: Vec<(Expr, bool)> = roots.iter().rev().map(|e| (*e, false)).collect();
    while let Some((e, done)) = stack.pop() {
        if done {
            out.push(e);
        } else if seen.insert(e) {
            stack.push((e, true));
            for k in operands(&cx.view(e).unwrap()).into_iter().rev() {
                stack.push((k, false));
            }
        }
    }
    out
}

/// A constant, as a signed number where it has more than one bit.
fn const_text(v: &BitVec) -> String {
    let w = v.len();
    let bit = |i: usize| v.bit(i).unwrap();
    if w > 1 && bit(w - 1) && w <= 120 {
        let mut m: i128 = -1;
        for i in 0..w {
            if !bit(i) {
                m -= 1 << i;
            }
        }
        return format!("{m}");
    }
    if (0..w).all(bit) && w > 1 {
        return "-1".to_string();
    }
    let top = (0..w).rev().find(|i| bit(*i)).unwrap_or(0);
    if top < 127 {
        let mut m: u128 = 0;
        for i in 0..=top {
            if bit(i) {
                m += 1 << i;
            }
        }
        return format!("{m}");
    }
    let mut s = String::new();
    for d in (0..=top / 4).rev() {
        let x = (0..4).filter(|i| d * 4 + i < w && bit(d * 4 + i)).map(|i| 1u32 << i).sum::<u32>();
        s.push(char::from_digit(x, 16).unwrap());
    }
    format!("0x{s}")
}

struct Shower<'a> {
    cx: &'a Context,
    names: HashMap<Expr, String>,
}

impl Shower<'_> {
    fn is_const(&self, e: Expr) -> bool {
        matches!(self.cx.view(e).unwrap(), NodeView::Const)
    }

    fn full(&self, e: Expr) -> String {
        match self.cx.as_const(e).unwrap() {
            Some(v) => format!("{}:{}", const_text(&v), v.len()),
            None => self.text(e, true),
        }
    }

    /// An operand beside another one that tells its width.
    fn side(&self, e: Expr, parens: bool) -> String {
        match self.cx.as_const(e).unwrap() {
            Some(v) => const_text(&v),
            None => {
                let infix = matches!(self.cx.view(e).unwrap(), NodeView::Bin(op, ..) if infix(op).is_some())
                    || matches!(self.cx.view(e).unwrap(), NodeView::Cmp(..));
                if parens && infix && !self.names.contains_key(&e) {
                    format!("({})", self.text(e, true))
                } else {
                    self.text(e, true)
                }
            }
        }
    }

    fn text(&self, e: Expr, named: bool) -> String {
        if named {
            if let Some(n) = self.names.get(&e) {
                return n.clone();
            }
        }
        let w = self.cx.width(e).unwrap().bits();
        match self.cx.view(e).unwrap() {
            NodeView::Const => self.full(e),
            NodeView::Sym(k) => name_of(k),
            NodeView::Un(op, a) => match op {
                UnOp::Not => format!("~{}", self.side(a, true)),
                UnOp::Neg => format!("-{}", self.side(a, true)),
                UnOp::Popcnt => format!("popcnt({})", self.full(a)),
                UnOp::Clz => format!("clz({})", self.full(a)),
                UnOp::Ctz => format!("ctz({})", self.full(a)),
                UnOp::Bswap => format!("bswap({})", self.full(a)),
                UnOp::BitRev => format!("bitrev({})", self.full(a)),
            },
            NodeView::Bin(op, a, b) => match infix(op) {
                Some(o) => {
                    let chain = matches!(op, BinOp::Add | BinOp::Mul | BinOp::And | BinOp::Or | BinOp::Xor);
                    let same = matches!(self.cx.view(a).unwrap(), NodeView::Bin(p, ..) if p == op) && chain;
                    let sum = matches!(op, BinOp::Add | BinOp::Sub);
                    let product = |e: Expr| sum && matches!(self.cx.view(e).unwrap(), NodeView::Bin(BinOp::Mul, ..));
                    format!("{} {o} {}", self.side(a, !same && !product(a)), self.side(b, !product(b)))
                }
                None => {
                    let f = match op {
                        BinOp::UDiv => "udiv",
                        BinOp::URem => "urem",
                        BinOp::SDiv => "sdiv",
                        BinOp::SRem => "srem",
                        BinOp::RotL => "rotl",
                        _ => "rotr",
                    };
                    format!("{f}({}, {})", self.full(a), self.full(b))
                }
            },
            NodeView::Cmp(op, a, b) => {
                let o = match op {
                    CmpOp::Eq => "==",
                    CmpOp::Ne => "!=",
                    CmpOp::Ult => "<u",
                    CmpOp::Ule => "<=u",
                    CmpOp::Slt => "<s",
                    CmpOp::Sle => "<=s",
                };
                format!("{} {o} {}", self.side(a, true), self.side(b, true))
            }
            NodeView::Zext(a) => format!("zext<{w}>({})", self.full(a)),
            NodeView::Sext(a) => format!("sext<{w}>({})", self.full(a)),
            NodeView::Extract(a, 0) => format!("trunc<{w}>({})", self.full(a)),
            NodeView::Extract(a, lo) => format!("extract<{lo}, {w}>({})", self.full(a)),
            NodeView::Concat(a, b) => format!("concat({}, {})", self.full(a), self.full(b)),
            NodeView::Select(c, a, b) => {
                format!("select({}, {}, {})", self.full(c), self.full(a), self.full(b))
            }
        }
    }
}

fn infix(op: BinOp) -> Option<&'static str> {
    Some(match op {
        BinOp::Add => "+",
        BinOp::Sub => "-",
        BinOp::Mul => "*",
        BinOp::And => "&",
        BinOp::Or => "|",
        BinOp::Xor => "^",
        BinOp::Shl => "<<",
        BinOp::LShr => ">>u",
        BinOp::AShr => ">>s",
        _ => return None,
    })
}

/// Expressions as text.
trait Text {
    fn sym(&mut self, name: &str, w: Width) -> Result<Expr, Error>;
    fn parse(&mut self, src: &str, o: &ParseOptions) -> Result<Expr, Error>;
    fn display(&self, e: Expr) -> String;
    fn cmp(&mut self, op: CmpOpExt, a: Expr, b: Expr) -> Result<Expr, Error>;
}

impl Text for Context {
    fn sym(&mut self, name: &str, w: Width) -> Result<Expr, Error> {
        self.symbol(key(name), w)
    }

    fn parse(&mut self, src: &str, o: &ParseOptions) -> Result<Expr, Error> {
        let mut p = Parser { toks: tokens(src), at: 0, lets: HashMap::new() };
        let a = p.program();
        let mut known = HashMap::new();
        note_widths(&a, &mut known);
        let w = width_said(&a, &known).unwrap_or(o.width);
        Ok(elaborate(self, &a, w, o.width, &known))
    }

    fn display(&self, e: Expr) -> String {
        let all = nodes_of(self, &[e]);
        let mut uses: HashMap<Expr, usize> = HashMap::new();
        for n in &all {
            for k in operands(&self.view(*n).unwrap()) {
                *uses.entry(k).or_insert(0) += 1;
            }
        }
        let mut s = Shower { cx: self, names: HashMap::new() };
        let mut out = String::new();
        for n in &all {
            if uses.get(n).copied().unwrap_or(0) > 1 && !operands(&self.view(*n).unwrap()).is_empty() {
                let name = format!("%{}", s.names.len());
                out.push_str(&format!("let {name} = {};\n", s.text(*n, false)));
                s.names.insert(*n, name);
            }
        }
        out + &s.full(e)
    }

    fn cmp(&mut self, op: CmpOpExt, a: Expr, b: Expr) -> Result<Expr, Error> {
        self.compare(op, a, b)
    }
}

// ----- random expressions -------------------------------------------------------------------------

const RELS: [CmpOpExt; 10] = [
    CmpOpExt::Eq,
    CmpOpExt::Ne,
    CmpOpExt::Ult,
    CmpOpExt::Ule,
    CmpOpExt::Ugt,
    CmpOpExt::Uge,
    CmpOpExt::Slt,
    CmpOpExt::Sle,
    CmpOpExt::Sgt,
    CmpOpExt::Sge,
];

const UNS: [UnOp; 6] = [UnOp::Not, UnOp::Neg, UnOp::Popcnt, UnOp::Clz, UnOp::Ctz, UnOp::BitRev];

const BINS: [BinOp; 15] = [
    BinOp::Add,
    BinOp::Sub,
    BinOp::Mul,
    BinOp::UDiv,
    BinOp::URem,
    BinOp::SDiv,
    BinOp::SRem,
    BinOp::And,
    BinOp::Or,
    BinOp::Xor,
    BinOp::Shl,
    BinOp::LShr,
    BinOp::AShr,
    BinOp::RotL,
    BinOp::RotR,
];

struct Rng(u64);

impl Rng {
    fn next(&mut self) -> u64 {
        self.0 = self.0.wrapping_add(0x9e37_79b9_7f4a_7c15);
        let mut z = self.0;
        z = (z ^ (z >> 30)).wrapping_mul(0xbf58_476d_1ce4_e5b9);
        z = (z ^ (z >> 27)).wrapping_mul(0x94d0_49bb_1331_11eb);
        z ^ (z >> 31)
    }

    fn below(&mut self, n: u64) -> u64 {
        self.next() % n
    }

    fn chance(&mut self, a: u64, b: u64) -> bool {
        self.below(b) < a
    }

    fn value(&mut self, w: u16) -> BitVec {
        let v: Vec<bool> = match self.below(6) {
            0 => vec![false; w as usize],
            1 => vec![true; w as usize],
            2 => {
                let k = self.below(u64::from(w)) as u16;
                (0..w).map(|i| i == k).collect()
            }
            3 => {
                let x = self.below(16);
                (0..w).map(|i| i < 8 && (x >> i) & 1 == 1).collect()
            }
            _ => (0..w).map(|_| self.chance(1, 2)).collect(),
        };
        BitVec::from_bools(v)
    }
}

struct Gen {
    rng: Rng,
    max_w: u16,
}

fn generator(seed: u64) -> Gen {
    Gen { rng: Rng(seed), max_w: 6 }
}

impl Gen {
    fn constant(&mut self, w: u16) -> BitVec {
        self.rng.value(w)
    }

    /// A random expression of `w` bits over every operator.
    fn expr(&mut self, cx: &mut Context, w: u16, depth: u32) -> (Expr, u32) {
        let width = Width::new(w).unwrap();
        if depth == 0 || self.rng.chance(1, 6) {
            let e = if self.rng.chance(1, 4) {
                let v = self.constant(w);
                cx.constant(&v).unwrap()
            } else {
                let n = ["a", "b", "c"][self.rng.below(3) as usize];
                cx.sym(&format!("{n}{w}"), width).unwrap()
            };
            return (e, depth);
        }
        let d = depth - 1;
        let e = match self.rng.below(10) {
            0 => {
                let a = self.expr(cx, w, d).0;
                cx.un(UNS[self.rng.below(6) as usize], a).unwrap()
            }
            1 if w > 1 => {
                let n = 1 + self.rng.below(u64::from(w) - 1) as u16;
                let a = self.expr(cx, n, d).0;
                if self.rng.chance(1, 2) {
                    cx.zext(a, width).unwrap()
                } else {
                    cx.sext(a, width).unwrap()
                }
            }
            2 if w < self.max_w => {
                let n = w + 1 + self.rng.below(u64::from(self.max_w - w)) as u16;
                let a = self.expr(cx, n, d).0;
                let lo = self.rng.below(u64::from(n - w) + 1) as u16;
                cx.extract(a, lo, width).unwrap()
            }
            3 if w > 1 => {
                let n = 1 + self.rng.below(u64::from(w) - 1) as u16;
                let (a, b) = (self.expr(cx, n, d).0, self.expr(cx, w - n, d).0);
                cx.concat(a, b).unwrap()
            }
            4 => {
                let c = self.expr(cx, 1, d).0;
                let (a, b) = (self.expr(cx, w, d).0, self.expr(cx, w, d).0);
                cx.select(c, a, b).unwrap()
            }
            5 if w == 1 => {
                let n = 1 + self.rng.below(u64::from(self.max_w)) as u16;
                let (a, b) = (self.expr(cx, n, d).0, self.expr(cx, n, d).0);
                cx.compare(RELS[self.rng.below(10) as usize], a, b).unwrap()
            }
            _ => {
                let (a, b) = (self.expr(cx, w, d).0, self.expr(cx, w, d).0);
                cx.bin(BINS[self.rng.below(15) as usize], a, b).unwrap()
            }
        };
        (e, depth)
    }
}

/// The symbols of two expressions, with their widths.
fn symbols(cx: &Context, roots: &[Expr]) -> BTreeMap<u64, u16> {
    let mut out = BTreeMap::new();
    for e in nodes_of(cx, roots) {
        if let NodeView::Sym(k) = cx.view(e).unwrap() {
            out.insert(k, cx.width(e).unwrap().bits());
        }
    }
    out
}

/// Whether two expressions agree: everywhere where their symbols have few bits, else at some
/// values.
fn equivalent(cx: &mut Context, a: Expr, b: Expr, rng: &mut Rng) -> bool {
    if a == b {
        return true;
    }
    let syms: Vec<(u64, u16)> = symbols(cx, &[a, b]).into_iter().collect();
    let total: u32 = syms.iter().map(|s| u32::from(s.1)).sum();
    let agree = |env: &Vec<(u64, BitVec)>| cx.eval(a, env).unwrap().same(&cx.eval(b, env).unwrap());
    if total <= 9 {
        for x in 0..(1u64 << total) {
            let mut at = 0;
            let mut env = Vec::new();
            for (k, w) in &syms {
                env.push((*k, bits_of(*w, u128::from(x >> at) & ((1 << w) - 1))));
                at += w;
            }
            if !agree(&env) {
                return false;
            }
        }
        return true;
    }
    for _ in 0..40 {
        let env: Vec<(u64, BitVec)> = syms.iter().map(|(k, w)| (*k, rng.value(*w))).collect();
        if !agree(&env) {
            return false;
        }
    }
    true
}

/// How many nodes `roots` have together.
fn dag(cx: &mut Context, roots: &[Expr]) -> u32 {
    nodes_of(cx, roots).len() as u32
}

/// An engine running `phases` with the default verification: the tests' own equivalence
/// checks are the oracle (strict verification would reject a wrong rewrite before any test
/// could see it).
fn engine(phases: Vec<Phase>) -> Engine {
    Engine::builder().builtin().strategy(Strategy::new("t", phases)).build().unwrap()
}

fn simplify(eng: &Engine, src: &str, w: u16) -> String {
    let mut cx = Context::new();
    let e = cx.parse(src, &ParseOptions::width(Width::new(w).unwrap())).unwrap();
    let out = eng.simplify(&mut cx, e).unwrap();
    cx.display(out.expr).to_string()
}

/// Checks what `eng` makes of `src`.
fn becomes(eng: &Engine, src: &str, want: &str, w: u16) {
    let mut cx = Context::new();
    let o = ParseOptions::width(Width::new(w).unwrap());
    let e = cx.parse(src, &o).unwrap();
    let want = cx.parse(want, &o).unwrap();
    let out = eng.simplify(&mut cx, e).unwrap();
    assert_eq!(out.expr, want, "{src}: got {}", cx.display(out.expr));
}

/// How many nodes the passes replaced.
fn changes(p: &PassTable) -> u64 {
    [
        p.fact_fold,
        p.linear,
        p.bitwise,
        p.xor,
        p.compares,
        p.casts,
        p.demanded,
        p.linear_mba,
        p.shuffle,
        p.invert,
    ]
    .iter()
    .map(|c| c.changed)
    .sum()
}

/// A random expression in the linear fragment over a few atoms (symbols, and non-linear
/// compounds of them), with constants.
fn linear_expr(g: &mut Gen, cx: &mut Context, w: u16, depth: u32) -> Expr {
    let width = Width::new(w).unwrap();
    if depth == 0 || g.rng.chance(1, 4) {
        return match g.rng.below(5) {
            0 => {
                let v = g.constant(w);
                cx.constant(&v).unwrap()
            }
            1 => {
                let a = cx.sym("a", width).unwrap();
                let b = cx.sym("b", width).unwrap();
                cx.bin(BinOp::Mul, a, b).unwrap()
            }
            2 => {
                let a = cx.sym("a", width).unwrap();
                let c = cx.sym("c", width).unwrap();
                cx.bin(BinOp::And, a, c).unwrap()
            }
            k => cx.sym(["a", "b", "c"][k as usize - 2], width).unwrap(),
        };
    }
    let d = depth - 1;
    match g.rng.below(8) {
        0 | 1 => {
            let (x, y) = (linear_expr(g, cx, w, d), linear_expr(g, cx, w, d));
            cx.bin(BinOp::Add, x, y).unwrap()
        }
        2 => {
            let (x, y) = (linear_expr(g, cx, w, d), linear_expr(g, cx, w, d));
            cx.bin(BinOp::Sub, x, y).unwrap()
        }
        3 => {
            let x = linear_expr(g, cx, w, d);
            cx.un(
                if g.rng.chance(1, 2) {
                    UnOp::Neg
                } else {
                    UnOp::Not
                },
                x,
            )
            .unwrap()
        }
        4 => {
            let x = linear_expr(g, cx, w, d);
            let k = g.constant(w);
            let k = cx.constant(&k).unwrap();
            cx.bin(BinOp::Mul, x, k).unwrap()
        }
        5 => {
            let x = linear_expr(g, cx, w, d);
            let k = cx
                .constant_u64(width, g.rng.below(u64::from(w) + 1))
                .unwrap();
            cx.bin(BinOp::Shl, x, k).unwrap()
        }
        _ => {
            // Disjoint or/xor: masks with no common bit.
            let (x, y) = (linear_expr(g, cx, w, d), linear_expr(g, cx, w, d));
            let m = g.constant(w);
            let mk = cx.constant(&m).unwrap();
            let nm = cx.un(UnOp::Not, mk).unwrap();
            let (x, y) = (
                cx.bin(BinOp::And, x, mk).unwrap(),
                cx.bin(BinOp::And, y, nm).unwrap(),
            );
            cx.bin(
                if g.rng.chance(1, 2) {
                    BinOp::Or
                } else {
                    BinOp::Xor
                },
                x,
                y,
            )
            .unwrap()
        }
    }
}

#[test]
fn linear_is_sound_and_idempotent() {
    let eng = engine(vec![Phase::Linear]);
    let mut g = generator(0x11ea_4001);
    let mut rng = Rng(9);
    let mut changed = 0;
    for i in 0..1500 {
        let mut cx = Context::new();
        let w = if i % 10 == 0 {
            [16, 64, 128, 257, 512][g.rng.below(5) as usize]
        } else {
            1 + g.rng.below(6) as u16
        };
        let e = match i % 4 {
            0 => g.expr(&mut cx, w.min(6), 4).0,
            // `(P | Q) - Q` and `(P ^ Q) - Q` with overlapping operands: cancels only if the
            // or/xor is (wrongly) read as a sum.
            1 => {
                let p = linear_expr(&mut g, &mut cx, w, 3);
                let q = linear_expr(&mut g, &mut cx, w, 3);
                let op = if g.rng.chance(1, 2) {
                    BinOp::Or
                } else {
                    BinOp::Xor
                };
                let o = cx.bin(op, p, q).unwrap();
                cx.bin(BinOp::Sub, o, q).unwrap()
            }
            _ => linear_expr(&mut g, &mut cx, w, 5),
        };
        let out = eng.run(&mut cx, &[e], Run::default()).unwrap();
        let r = &out.roots[0];
        assert_eq!(r.end, End::Completed);
        assert_eq!(out.stats.rejected, 0);
        assert!(
            equivalent(&mut cx, e, r.expr, &mut rng),
            "{} vs {}",
            cx.display(e),
            cx.display(r.expr)
        );
        changed += u64::from(r.changed);
        // Idempotent (recomputed, not answered from the memo).
        cx.forget_results();
        let out2 = eng.run(&mut cx, &[r.expr], Run::default()).unwrap();
        assert!(
            !out2.roots[0].changed,
            "not idempotent: {} -> {}",
            cx.display(r.expr),
            cx.display(out2.roots[0].expr)
        );
    }
    assert!(changed > 200, "{changed}");
}
#[test]
fn linear_cancels_additive_masking() {
    let eng = engine(vec![Phase::Linear]);
    for (src, want) in [
        ("(x + r) - r", "x"),
        ("(x - r) + (r + 5) - 5", "x"),
        ("~x + x", "-1:8"),
        ("x + x + x - 3 * x", "0:8"),
        ("(x << 2) - 4 * x", "0:8"),
        ("-(~x) - x", "1:8"),
        (
            "((x & 0xf0) | ((y * 2) & 0x0f)) - (y * 2 & 0x0f)",
            "x & -16",
        ),
        ("(x * y + 3) - (x * y + 1)", "2:8"),
        ("((x & 0xf0) ^ (y & 0x0f)) - (y & 0x0f)", "x & -16"),
        // Overlapping or/xor are not sums.
        ("(x | y) - y", "(x | y) - y"),
        ("(x ^ y) - y", "(x ^ y) - y"),
    ] {
        assert_eq!(simplify(&eng, src, 8), want, "{src}");
    }
    // Wide widths.
    assert_eq!(simplify(&eng, "(x + r) - r", 512), "x");
    assert_eq!(simplify(&eng, "~x + x + 1", 129), "0:129");
    // Equal-size rewrites are not made: a disjoint or stays an or.
    let mut cx = Context::new();
    let e = cx.parse("(x & 0xf0) | (y & 0x0f)", &ParseOptions::width(Width::new(8).unwrap()))
        .unwrap();
    assert!(!eng.simplify(&mut cx, e).unwrap().changed);
}

#[test]
fn linear_atomizes_huge_forms() {
    let eng = engine(vec![Phase::Linear]);
    let mut cx = Context::new();
    let w = Width::new(16).unwrap();
    let mut e = cx.constant_u64(w, 0).unwrap();
    let mut syms = Vec::new();
    for i in 0..(bitwright::engine::pass::linear::MAX_TERMS + 10) {
        let s = cx.sym(format!("s{i}").as_str(), w).unwrap();
        syms.push(s);
        e = cx.bin(BinOp::Add, e, s).unwrap();
    }
    // (Σ s) - s0: the sum is over the cap, so it is an atom and nothing cancels, but the
    // result is still correct.
    let e2 = cx.bin(BinOp::Sub, e, syms[0]).unwrap();
    let out = eng.run(&mut cx, &[e2], Run::default()).unwrap();
    assert!(out.stats.passes.linear.atomized > 0);
    let mut rng = Rng(1);
    assert!(equivalent(&mut cx, e2, out.roots[0].expr, &mut rng));
}

#[test]
fn linear_charges_pass_work() {
    let eng = engine(vec![Phase::Linear]);
    let mut cx = Context::new();
    let e = cx.parse("(x + r) - r + (y + q) - q", &ParseOptions::width(Width::new(8).unwrap()))
        .unwrap();
    let out = eng
        .run(
            &mut cx,
            &[e],
            Run::default().with_per_call(Budget::unlimited().with_pass_work(3)),
        )
        .unwrap();
    assert!(matches!(out.roots[0].end, End::BudgetTerminated(_)));
    assert!(out.stats.passes.linear.calls > 0);
}

#[test]
fn fact_fold_folds_known_nodes_and_obeys_the_hook() {
    let eng = engine(vec![Phase::FactFold]);
    assert_eq!(simplify(&eng, "(x | 0x0f) & 0x0f", 8), "15:8");
    assert_eq!(simplify(&eng, "popcnt(x & 1) <=u 1", 8), "1:1");
    struct NoFold;
    impl Hooks for NoFold {
        fn allows(&self, _: &Context, _: Expr, _: Expr, _: By<'_>) -> bool {
            true
        }

        fn admits(&self, _: &Context, _: Expr, _: Expr, _: By<'_>) -> bool {
            true
        }

        fn fold_known(&self, _: &Context, _: Expr) -> bool {
            false
        }
    }
    let mut cx = Context::new();
    let e = cx.parse("(x | 0x0f) & 0x0f", &ParseOptions::width(Width::new(8).unwrap()))
        .unwrap();
    let out = eng
        .run(
            &mut cx,
            &[e],
            Run::default().with_hooks(&NoFold),
        )
        .unwrap();
    assert!(!out.roots[0].changed);
}

#[test]
fn passes_and_rules_compose() {
    let eng = engine(vec![
        Phase::FactFold,
        Phase::Local {
            groups: vec![
                "core.bitwise".to_string(),
                "core.arith".to_string(),
                "core.compare".to_string(),
                "core.casts".to_string(),
                "core.shift".to_string(),
            ],
        },
        Phase::Linear,
    ]);
    let mut g = generator(0xc0_4905);
    let mut rng = Rng(3);
    for _ in 0..500 {
        let mut cx = Context::new();
        let w = 1 + g.rng.below(6) as u16;
        let e = linear_expr(&mut g, &mut cx, w, 5);
        let out = eng.run(&mut cx, &[e], Run::default()).unwrap();
        assert!(equivalent(&mut cx, e, out.roots[0].expr, &mut rng));
        assert_eq!(out.stats.rejected, 0);
    }
}
// ----- bitwise ------------------------------------------------------------------------------------

#[test]
fn bitwise_table_is_exact_and_sized() {
    let forms = search().forms;
    assert_eq!(forms.len(), 256);
    let mut max = 0;
    for (tt, form) in forms.iter().enumerate() {
        let form = form.as_ref().unwrap();
        let mut vals: Vec<u8> = Vec::new();
        let mut ops = 0;
        for t in &form.nodes {
            let v = match *t {
                T::Var(k) => [0xAAu8, 0xCC, 0xF0][k as usize],
                T::Zero => 0,
                T::Ones => 0xFF,
                T::Not(a) => {
                    ops += 1;
                    !vals[a as usize]
                }
                T::Bin(op, a, b) => {
                    ops += 1;
                    let (a, b) = (vals[a as usize], vals[b as usize]);
                    match op {
                        BinOp::And => a & b,
                        BinOp::Or => a | b,
                        BinOp::Xor => a ^ b,
                        _ => panic!("not a bitwise op"),
                    }
                }
            };
            vals.push(v);
        }
        assert_eq!(*vals.last().unwrap() as usize, tt, "template for {tt:#04x}");
        assert_eq!(ops, form.size as usize, "{tt:#04x}");
        max = max.max(form.size);
    }
    // Every 3-input function needs at most a handful of operators; a regression in the search
    // would show here.
    assert!(max <= 7, "{max}");
    // The single-operator functions are single operators.
    assert_eq!(forms[0xAA & 0xCC].as_ref().unwrap().size, 1);
    assert_eq!(forms[0xAA ^ 0xCC ^ 0xF0].as_ref().unwrap().size, 2);
}

/// A random bitwise expression over up to four atoms (so some regions are over the cap).
fn bitwise_expr(g: &mut Gen, cx: &mut Context, w: u16, depth: u32, atoms: u64) -> Expr {
    let width = Width::new(w).unwrap();
    if depth == 0 || g.rng.chance(1, 5) {
        return match g.rng.below(atoms + 2) {
            0 => cx.constant(&BitVec::zero(width)).unwrap(),
            1 => cx.constant(&BitVec::ones(width)).unwrap(),
            k => {
                let name = ["a", "b", "c", "d"][(k - 2) as usize];
                let s = cx.sym(name, width).unwrap();
                if name == "d" {
                    // A non-bitwise atom.
                    let a = cx.sym("a", width).unwrap();
                    cx.bin(BinOp::Add, s, a).unwrap()
                } else {
                    s
                }
            }
        };
    }
    let d = depth - 1;
    match g.rng.below(4) {
        0 => {
            let x = bitwise_expr(g, cx, w, d, atoms);
            cx.un(UnOp::Not, x).unwrap()
        }
        k => {
            let x = bitwise_expr(g, cx, w, d, atoms);
            let y = bitwise_expr(g, cx, w, d, atoms);
            cx.bin([BinOp::And, BinOp::Or, BinOp::Xor][(k - 1) as usize], x, y)
                .unwrap()
        }
    }
}

#[test]
fn bitwise_is_sound_minimal_and_idempotent() {
    let eng = engine(vec![Phase::Bitwise]);
    let mut g = generator(0xb175e);
    let mut rng = Rng(21);
    let mut changed = 0;
    for i in 0..1500 {
        let mut cx = Context::new();
        let w = if i % 10 == 0 {
            [8, 64, 129, 512][g.rng.below(4) as usize]
        } else {
            1 + g.rng.below(6) as u16
        };
        let atoms = 2 + g.rng.below(3);
        let e = bitwise_expr(&mut g, &mut cx, w, 5, atoms);
        let out = eng.run(&mut cx, &[e], Run::default()).unwrap();
        let r = &out.roots[0];
        assert_eq!(out.stats.rejected, 0);
        assert!(
            equivalent(&mut cx, e, r.expr, &mut rng),
            "{} vs {}",
            cx.display(e),
            cx.display(r.expr)
        );
        changed += u64::from(r.changed);
        cx.forget_results();
        let again = eng.run(&mut cx, &[r.expr], Run::default()).unwrap();
        assert!(
            !again.roots[0].changed,
            "not idempotent: {}",
            cx.display(r.expr)
        );
    }
    assert!(changed > 300, "{changed}");
}

#[test]
fn bitwise_fixtures() {
    let eng = engine(vec![Phase::Bitwise]);
    let same = |src: &str, want: &str| {
        let mut cx = Context::new();
        let o = ParseOptions::width(Width::new(8).unwrap());
        let e = cx.parse(src, &o).unwrap();
        let w = cx.parse(want, &o).unwrap();
        let out = eng.simplify(&mut cx, e).unwrap();
        assert_eq!(out.expr, w, "{src}: got {}", cx.display(out.expr));
    };
    same("(x & y) | (x & ~y)", "x");
    same("(x | y) & ~(x & y)", "x ^ y");
    same("~(~x & ~y)", "x | y");
    same("(x & ~y) | (~x & y)", "x ^ y");
    same("((x ^ y) & z) | (~(x ^ y) & z)", "z");
    same("(x & y & z) | (x & y & ~z)", "x & y");
    // A rewrite that drops an atom (`c` below) leaves no stale atom behind: the region above
    // has three atoms again and still reaches its minimum form.
    same("(d & ~b & ~a & ((b & c) | b)) | ~(d | a)", "~(a | d)");
    // Atoms may be arbitrary subterms.
    same("((p + q) & r) | ((p + q) & ~r)", "p + q");
}

#[test]
fn passes_are_independent_of_construction_order() {
    for phase in [
        Phase::Linear,
        Phase::Bitwise,
        Phase::Xor,
        Phase::Compares,
        Phase::LinearMba,
        Phase::FactFold,
    ] {
        let shown = format!("{phase:?}");
        let eng = engine(vec![phase]);
        let mut g = generator(0x0de7);
        for _ in 0..300 {
            // The same expression in two contexts whose symbols were created in opposite
            // orders (so node indices differ).
            let mut c1 = Context::new();
            let mut c2 = Context::new();
            let w = Width::new(1 + g.rng.below(8) as u16).unwrap();
            for name in ["a", "b", "c", "d"] {
                c1.sym(name, w).unwrap();
            }
            for name in ["d", "c", "b", "a"] {
                c2.sym(name, w).unwrap();
            }
            for name in ["x", "y", "z"] {
                c1.sym(name, w).unwrap();
            }
            for name in ["z", "y", "x"] {
                c2.sym(name, w).unwrap();
            }
            let e1 = match g.rng.below(5) {
                4 => linear_mba_expr(&mut g, &mut c1, w.bits()),
                0 => bitwise_expr(&mut g, &mut c1, w.bits(), 5, 3),
                1 => xor_expr(&mut g, &mut c1, w.bits(), 5),
                2 => {
                    let mode = g.rng.below(3);
                    compare_expr(&mut g, &mut c1, w.bits(), 4, mode)
                }
                _ => linear_expr(&mut g, &mut c1, w.bits(), 4),
            };
            let text = c1.display(e1).to_string();
            let o = ParseOptions::width(w);
            let e2 = c2.parse(&text, &o).unwrap();
            let r1 = eng.simplify(&mut c1, e1).unwrap().expr;
            let r2 = eng.simplify(&mut c2, e2).unwrap().expr;
            assert_eq!(
                c1.display(r1).to_string(),
                c2.display(r2).to_string(),
                "{shown} on {text}"
            );
        }
    }
}
// ----- xor ----------------------------------------------------------------------------------------

/// A random expression in the xor fragment over up to six atoms.
fn xor_expr(g: &mut Gen, cx: &mut Context, w: u16, depth: u32) -> Expr {
    let width = Width::new(w).unwrap();
    if depth == 0 || g.rng.chance(1, 5) {
        return match g.rng.below(8) {
            0 => {
                let v = g.constant(w);
                cx.constant(&v).unwrap()
            }
            1 => {
                let a = cx.sym("a", width).unwrap();
                let b = cx.sym("b", width).unwrap();
                cx.bin(BinOp::Add, a, b).unwrap()
            }
            k => cx.sym(["a", "b", "c", "d", "e", "f"][(k - 2) as usize], width)
                .unwrap(),
        };
    }
    let d = depth - 1;
    match g.rng.below(6) {
        0 | 1 => {
            let (x, y) = (xor_expr(g, cx, w, d), xor_expr(g, cx, w, d));
            cx.bin(BinOp::Xor, x, y).unwrap()
        }
        2 => {
            let x = xor_expr(g, cx, w, d);
            cx.un(UnOp::Not, x).unwrap()
        }
        3 => {
            let x = xor_expr(g, cx, w, d);
            let m = g.constant(w);
            let m = cx.constant(&m).unwrap();
            cx.bin(
                if g.rng.chance(1, 2) {
                    BinOp::And
                } else {
                    BinOp::Or
                },
                x,
                m,
            )
            .unwrap()
        }
        4 => {
            // Disjoint or.
            let (x, y) = (xor_expr(g, cx, w, d), xor_expr(g, cx, w, d));
            let m = g.constant(w);
            let mk = cx.constant(&m).unwrap();
            let nm = cx.un(UnOp::Not, mk).unwrap();
            let (x, y) = (
                cx.bin(BinOp::And, x, mk).unwrap(),
                cx.bin(BinOp::And, y, nm).unwrap(),
            );
            cx.bin(BinOp::Or, x, y).unwrap()
        }
        _ => {
            // Overlapping or: never a sum.
            let (x, y) = (xor_expr(g, cx, w, d), xor_expr(g, cx, w, d));
            let o = cx.bin(BinOp::Or, x, y).unwrap();
            cx.bin(BinOp::Xor, o, y).unwrap()
        }
    }
}

#[test]
fn xor_is_sound_and_idempotent() {
    let eng = engine(vec![Phase::Xor]);
    let mut g = generator(0x0a0f);
    let mut rng = Rng(33);
    let mut changed = 0;
    for i in 0..1500 {
        let mut cx = Context::new();
        let w = if i % 10 == 0 {
            [8, 64, 128, 511][g.rng.below(4) as usize]
        } else {
            1 + g.rng.below(6) as u16
        };
        let e = if i % 4 == 0 {
            g.expr(&mut cx, w.min(6), 4).0
        } else {
            xor_expr(&mut g, &mut cx, w, 5)
        };
        let out = eng.run(&mut cx, &[e], Run::default()).unwrap();
        let r = &out.roots[0];
        assert_eq!(out.stats.rejected, 0);
        assert!(
            equivalent(&mut cx, e, r.expr, &mut rng),
            "{} vs {}",
            cx.display(e),
            cx.display(r.expr)
        );
        changed += u64::from(r.changed);
        cx.forget_results();
        let again = eng.run(&mut cx, &[r.expr], Run::default()).unwrap();
        assert!(
            !again.roots[0].changed,
            "not idempotent: {}",
            cx.display(r.expr)
        );
    }
    assert!(changed > 300, "{changed}");
}

#[test]
fn xor_cancels_boolean_masking() {
    let eng = engine(vec![Phase::Xor]);
    let same = |src: &str, want: &str| {
        let mut cx = Context::new();
        let o = ParseOptions::width(Width::new(8).unwrap());
        let e = cx.parse(src, &o).unwrap();
        let w = cx.parse(want, &o).unwrap();
        let out = eng.simplify(&mut cx, e).unwrap();
        assert_eq!(out.expr, w, "{src}: got {}", cx.display(out.expr));
    };
    same("(x ^ r) ^ r", "x");
    same("((x ^ k) & 0xf0) ^ (k & 0xf0)", "x & 0xf0");
    same("~(x ^ y) ^ y", "~x");
    same("(x | 0x0f) ^ 0x0f", "x & 0xf0");
    same("a ^ b ^ c ^ d ^ e ^ (b ^ d)", "a ^ c ^ e");
    same("((a ^ m) ^ (b ^ m)) ^ ((c + d) ^ (a ^ b))", "c + d");
    // Overlapping or is not an xor.
    same("(x | y) ^ y", "(x | y) ^ y");
    // `x | c` is read as `(x & ~c) ^ c` and comes back as itself, after a cancellation too;
    // a constant that misses every mask widens them (here x's mask to all-ones).
    same("x | 3", "x | 3");
    same("((x | 3) ^ v) ^ v", "x | 3");
    same("(((x | 3) ^ (y & 0xf0)) ^ v) ^ v", "(x ^ (y & 0xf3)) | 3");
    same("(x & 0xf0) ^ 1", "(x & 0xf0) ^ 1");
}
// ----- compares -----------------------------------------------------------------------------------

/// A random boolean combination of comparisons: of one operand pair, of one operand against
/// constants, or mixed.
fn compare_expr(g: &mut Gen, cx: &mut Context, w: u16, depth: u32, mode: u64) -> Expr {
    let width = Width::new(w).unwrap();
    if depth == 0 || g.rng.chance(1, 4) {
        let op = RELS[g.rng.below(10) as usize];
        let x = cx.sym("x", width).unwrap();
        let other = match mode {
            0 => cx.sym("y", width).unwrap(),
            1 => {
                let v = g.constant(w);
                cx.constant(&v).unwrap()
            }
            _ => match g.rng.below(3) {
                0 => cx.sym("y", width).unwrap(),
                1 => cx.sym("z", width).unwrap(),
                _ => {
                    let v = g.constant(w);
                    cx.constant(&v).unwrap()
                }
            },
        };
        let (a, b) = if g.rng.chance(1, 2) {
            (x, other)
        } else {
            (other, x)
        };
        if g.rng.chance(1, 12) {
            return cx
                .constant(&BitVec::from_bool(g.rng.chance(1, 2)))
                .unwrap();
        }
        return cx.cmp(op, a, b).unwrap();
    }
    let d = depth - 1;
    match g.rng.below(4) {
        0 => {
            let x = compare_expr(g, cx, w, d, mode);
            cx.un(UnOp::Not, x).unwrap()
        }
        k => {
            let x = compare_expr(g, cx, w, d, mode);
            let y = compare_expr(g, cx, w, d, mode);
            cx.bin([BinOp::And, BinOp::Or, BinOp::Xor][(k - 1) as usize], x, y)
                .unwrap()
        }
    }
}

#[test]
fn compares_is_sound_and_idempotent() {
    let eng = engine(vec![Phase::Compares]);
    let mut g = generator(0xc0_3e);
    let mut rng = Rng(44);
    let mut changed = 0;
    for i in 0..3000 {
        let mut cx = Context::new();
        let w = if i % 10 == 0 {
            [8, 32, 64, 128, 512][g.rng.below(5) as usize]
        } else {
            1 + g.rng.below(6) as u16
        };
        let mode = g.rng.below(3);
        let e = compare_expr(&mut g, &mut cx, w, 4, mode);
        let out = eng.run(&mut cx, &[e], Run::default()).unwrap();
        let r = &out.roots[0];
        assert_eq!(out.stats.rejected, 0);
        assert!(
            equivalent(&mut cx, e, r.expr, &mut rng),
            "W={w}: {} vs {}",
            cx.display(e),
            cx.display(r.expr)
        );
        changed += u64::from(r.changed);
        cx.forget_results();
        let again = eng.run(&mut cx, &[r.expr], Run::default()).unwrap();
        assert!(
            !again.roots[0].changed,
            "not idempotent: {}",
            cx.display(r.expr)
        );
    }
    assert!(changed > 800, "{changed}");
}

#[test]
fn compares_fixtures() {
    let eng = engine(vec![Phase::Compares]);
    let same = |src: &str, want: &str, w: u16| {
        let mut cx = Context::new();
        let o = ParseOptions::width(Width::new(w).unwrap());
        let e = cx.parse(src, &o).unwrap();
        let want = cx.parse(want, &o).unwrap();
        let out = eng.simplify(&mut cx, e).unwrap();
        assert_eq!(out.expr, want, "{src}: got {}", cx.display(out.expr));
    };
    same("(x <u y) | (x == y)", "x <=u y", 8);
    same("(x <u y) & (y <u x)", "false", 8);
    same("~(x <=s y)", "y <s x", 8);
    same("(x <=u y) & (x >=u y)", "x == y", 8);
    same("(x <u 10) & (x >u 3)", "x - 4 <=u 5", 8);
    same("(x == 5) | (x == 6)", "x - 5 <=u 1", 8);
    same("(x <u 3) | (x >u 250)", "x - 251 <=u 7", 8);
    same("(x <s 0) ^ (x <u 128)", "true", 8);
    same("(x <u 200) & (x != 7) & (x <u 8)", "x <=u 6", 8);
    same("(x <s 5) & (x >=s -3)", "x + 3 <=u 7", 8);
    // At W = 1 only three relations occur: `<u` and `<s` never hold together.
    same("(x <u y) & (x <s y)", "false", 1);
    same("(x <u y) ^ (x <s y)", "x != y", 1);
    // Different pairs are left alone.
    same("(x <u y) & (x <u z)", "(x <u y) & (x <u z)", 8);
    // Comparisons of functions of x combine on x.
    same("(x - 4 <=u 5) | (x == 10)", "x - 4 <=u 6", 8);
    same("(x + 3 <u 5) & (x == 1)", "x == 1", 8);
    same("((x & 0x7f) == 0) & (x <u 0x80)", "x == 0", 8);
    same("(~x <u 10) | (x <u 10)", "x - 246 <=u 19", 8);
    same("((x ^ 0x80) <u 0x10) | (x - 0x90 <u 0x10)", "x <=s 0x9f", 8);
    same("(-x == 3) & (x == 5)", "false", 8);
    same("((x | 0x80) == 0x85) ^ (x == 5)", "x == 0x85", 8);
    same("(x + 1 == 0) | (x + 1 == 1)", "x - 255 <=u 1", 8);
}

/// A term for the order reading: a symbol, a constant, an operation bounded by or monotone in
/// its operands, or a select between terms on a comparison (a minimum or maximum).
fn order_term(g: &mut Gen, cx: &mut Context, w: u16, depth: u32, signed: bool) -> Expr {
    let width = Width::new(w).unwrap();
    let sym = |cx: &mut Context, g: &mut Gen| {
        cx.sym(["x", "y", "z"][g.rng.below(3) as usize], width)
            .unwrap()
    };
    if depth == 0 || g.rng.chance(1, 3) {
        return match g.rng.below(8) {
            0 => {
                let v = g.constant(w);
                cx.constant(&v).unwrap()
            }
            1 => {
                let (a, b) = (sym(cx, g), sym(cx, g));
                cx.bin(BinOp::And, a, b).unwrap()
            }
            2 => {
                let (a, b) = (sym(cx, g), sym(cx, g));
                cx.bin(BinOp::Or, a, b).unwrap()
            }
            3 => {
                let a = sym(cx, g);
                let k = BitVec::wrapping_from_u64(width, g.rng.below(3));
                let k = cx.constant(&k).unwrap();
                let op = if signed { BinOp::AShr } else { BinOp::LShr };
                cx.bin(op, a, k).unwrap()
            }
            4 => {
                let a = sym(cx, g);
                let k = BitVec::wrapping_from_u64(width, 1 + g.rng.below(3));
                let k = cx.constant(&k).unwrap();
                cx.bin(BinOp::UDiv, a, k).unwrap()
            }
            _ => sym(cx, g),
        };
    }
    let c = order_formula(g, cx, w, depth - 1, signed);
    let (a, b) = (
        order_term(g, cx, w, depth - 1, signed),
        order_term(g, cx, w, depth - 1, signed),
    );
    cx.select(c, a, b).unwrap()
}

/// A boolean combination of comparisons between order terms.
fn order_formula(g: &mut Gen, cx: &mut Context, w: u16, depth: u32, signed: bool) -> Expr {
    if depth == 0 || g.rng.chance(1, 3) {
        let ops: &[CmpOpExt] = if signed {
            &[
                CmpOpExt::Slt,
                CmpOpExt::Sle,
                CmpOpExt::Sgt,
                CmpOpExt::Sge,
                CmpOpExt::Eq,
                CmpOpExt::Ne,
            ]
        } else {
            &[
                CmpOpExt::Ult,
                CmpOpExt::Ule,
                CmpOpExt::Ugt,
                CmpOpExt::Uge,
                CmpOpExt::Eq,
                CmpOpExt::Ne,
            ]
        };
        let op = ops[g.rng.below(ops.len() as u64) as usize];
        let a = order_term(g, cx, w, depth.min(1), signed);
        let b = order_term(g, cx, w, depth.min(1), signed);
        return cx.cmp(op, a, b).unwrap();
    }
    let d = depth - 1;
    match g.rng.below(4) {
        0 => {
            let x = order_formula(g, cx, w, d, signed);
            cx.un(UnOp::Not, x).unwrap()
        }
        k => {
            let x = order_formula(g, cx, w, d, signed);
            let y = order_formula(g, cx, w, d, signed);
            cx.bin([BinOp::And, BinOp::Or, BinOp::Xor][(k - 1) as usize], x, y)
                .unwrap()
        }
    }
}

/// The order reading (in the compares pass) is sound: every result is equivalent,
/// exhaustively at small widths, and a second run changes nothing.
#[test]
fn order_is_sound_and_idempotent() {
    let eng = engine(vec![Phase::Compares]);
    let mut g = generator(0x0de5);
    let mut rng = Rng(46);
    let mut changed = 0;
    for i in 0..3000 {
        let mut cx = Context::new();
        let w = if i % 10 == 0 {
            [8, 32, 64][g.rng.below(3) as usize]
        } else {
            1 + g.rng.below(4) as u16
        };
        let signed = g.rng.chance(1, 3);
        let e = if g.rng.chance(1, 3) {
            order_term(&mut g, &mut cx, w, 3, signed)
        } else {
            order_formula(&mut g, &mut cx, w, 3, signed)
        };
        let out = eng.run(&mut cx, &[e], Run::default()).unwrap();
        let r = &out.roots[0];
        assert_eq!(out.stats.rejected, 0);
        assert!(
            equivalent(&mut cx, e, r.expr, &mut rng),
            "W={w}: {} vs {}",
            cx.display(e),
            cx.display(r.expr)
        );
        changed += u64::from(r.changed);
        cx.forget_results();
        let again = eng.run(&mut cx, &[r.expr], Run::default()).unwrap();
        assert!(
            !again.roots[0].changed,
            "not idempotent: {} became {}",
            cx.display(r.expr),
            cx.display(again.roots[0].expr)
        );
    }
    assert!(changed > 300, "{changed}");
}

#[test]
fn order_fixtures() {
    let eng = engine(vec![Phase::Compares]);
    let same = |src: &str, want: &str| {
        let mut cx = Context::new();
        let o = ParseOptions::width(Width::new(8).unwrap());
        let e = cx.parse(src, &o).unwrap();
        let want = cx.parse(want, &o).unwrap();
        let out = eng.simplify(&mut cx, e).unwrap();
        assert_eq!(out.expr, want, "{src}: got {}", cx.display(out.expr));
    };
    // Laws of the order: transitivity, asymmetry, trichotomy, totality.
    same("(x <u y) & (y <u z) & (z <=u x)", "false");
    same("(x <=s y) & (y <=s z) & (z <s x)", "false");
    same("(x <u y) | (x == y) | (y <u x)", "true");
    same("~(x <u y) & ~(y <u x)", "x == y");
    same("(x <=u y) & (y <=u z) & (x <=u z)", "(x <=u y) & (y <=u z)");
    // Minimum and maximum, however they are written.
    same("select(x <u y, x, y) == select(y <u x, y, x)", "true");
    same("select(x <u y, x, y) <=u select(x <u y, y, x)", "true");
    same(
        "select(x <u select(x <u y, y, x), x, select(x <u y, y, x))",
        "x",
    );
    same(
        "select(x <u select(y <u z, y, z), x, select(y <u z, y, z)) \
         == select(select(x <u y, x, y) <u z, select(x <u y, x, y), z)",
        "true",
    );
    same("select(x <s y, x, y) == select(y <s x, y, x)", "true");
    // Bounded and monotone operations.
    same("(x & y) <=u x", "true");
    same("x <=u (x | y)", "true");
    same("~(x <=u y) | ((x >>u 2) <=u (y >>u 2))", "true");
    same("~(x <=u y) | (udiv(x, 3) <=u udiv(y, 3))", "true");
    same("~(x <=s y) | ((x >>s 2) <=s (y >>s 2))", "true");
    // Constants and ranges order atoms too.
    same("select(x <u 0xff, x, 0xff)", "x");
    same("((x & 0x0f) <u 0x20) & (y <=u x)", "y <=u x");
    // Other pairs stay.
    same("(x <u y) & (x <u z)", "(x <u y) & (x <u z)");
}

/// Comparisons of `x`, of functions of it that the pass sees through, and of extensions of a
/// narrower `v`, combined.
fn peeled_expr(g: &mut Gen, cx: &mut Context, w: u16, depth: u32) -> Expr {
    let width = Width::new(w).unwrap();
    if depth == 0 || g.rng.chance(1, 4) {
        let x = cx.sym("x", width).unwrap();
        let k = g.constant(w);
        let k = cx.constant(&k).unwrap();
        let low = BitVec::wrapping_from_u64(width, (1 << g.rng.below(u64::from(w.min(63)))) - 1);
        let low = cx.constant(&low).unwrap();
        let smin = cx.constant(&BitVec::smin(width)).unwrap();
        let v = || Width::new(w - 1).unwrap();
        let t = match g.rng.below(11) {
            0 => x,
            1 => cx.bin(BinOp::Add, x, k).unwrap(),
            2 => cx.bin(BinOp::Sub, k, x).unwrap(),
            3 => cx.un(UnOp::Neg, x).unwrap(),
            4 => cx.un(UnOp::Not, x).unwrap(),
            5 => cx.bin(BinOp::Xor, x, smin).unwrap(),
            6 => cx.bin(BinOp::And, x, low).unwrap(),
            7 => cx.bin(BinOp::Or, x, smin).unwrap(),
            8 if w > 1 => {
                let v = cx.sym("v", v()).unwrap();
                cx.zext(v, width).unwrap()
            }
            9 if w > 1 => {
                let v = cx.sym("v", v()).unwrap();
                cx.sext(v, width).unwrap()
            }
            _ => {
                let s = cx.bin(BinOp::Sub, x, k).unwrap();
                cx.bin(BinOp::And, s, low).unwrap()
            }
        };
        let op = RELS[g.rng.below(10) as usize];
        let c = g.constant(w);
        let c = cx.constant(&c).unwrap();
        return if g.rng.chance(1, 2) {
            cx.cmp(op, t, c).unwrap()
        } else {
            cx.cmp(op, c, t).unwrap()
        };
    }
    let d = depth - 1;
    match g.rng.below(4) {
        0 => {
            let x = peeled_expr(g, cx, w, d);
            cx.un(UnOp::Not, x).unwrap()
        }
        k => {
            let x = peeled_expr(g, cx, w, d);
            let y = peeled_expr(g, cx, w, d);
            cx.bin([BinOp::And, BinOp::Or, BinOp::Xor][(k - 1) as usize], x, y)
                .unwrap()
        }
    }
}

#[test]
fn compares_through_functions_is_sound_and_idempotent() {
    let eng = engine(vec![Phase::Compares]);
    let mut g = generator(0xc0_3f);
    let mut rng = Rng(45);
    let mut changed = 0;
    for i in 0..3000 {
        let mut cx = Context::new();
        let w = if i % 10 == 0 {
            [8, 32, 64, 128][g.rng.below(4) as usize]
        } else {
            2 + g.rng.below(6) as u16
        };
        let e = peeled_expr(&mut g, &mut cx, w, 3);
        let out = eng.run(&mut cx, &[e], Run::default()).unwrap();
        let r = &out.roots[0];
        assert_eq!(out.stats.rejected, 0);
        assert!(
            equivalent(&mut cx, e, r.expr, &mut rng),
            "W={w}: {} vs {}",
            cx.display(e),
            cx.display(r.expr)
        );
        changed += u64::from(r.changed);
        cx.forget_results();
        let again = eng.run(&mut cx, &[r.expr], Run::default()).unwrap();
        assert!(
            !again.roots[0].changed,
            "not idempotent: {} to {}",
            cx.display(r.expr),
            cx.display(again.roots[0].expr)
        );
    }
    assert!(changed > 600, "{changed}");
}
// ----- casts --------------------------------------------------------------------------------------

#[test]
fn casts_is_sound_and_idempotent() {
    let eng = engine(vec![Phase::Casts]);
    let mut g = generator(0xca57);
    g.max_w = 8;
    let mut rng = Rng(55);
    let mut changed = 0;
    for _ in 0..2000 {
        let mut cx = Context::new();
        let wide = 2 + g.rng.below(7) as u16;
        let (x, _) = g.expr(&mut cx, wide, 4);
        // Extract some bits of it (the pass acts on extracts).
        let n = 1 + g.rng.below(u64::from(wide)) as u16;
        let lo = g.rng.below(u64::from(wide - n) + 1) as u16;
        let e = cx.extract(x, lo, Width::new(n).unwrap()).unwrap();
        let out = eng.run(&mut cx, &[e], Run::default()).unwrap();
        let r = &out.roots[0];
        assert_eq!(out.stats.rejected, 0);
        assert!(
            equivalent(&mut cx, e, r.expr, &mut rng),
            "{} vs {}",
            cx.display(e),
            cx.display(r.expr)
        );
        changed += u64::from(r.changed);
        cx.forget_results();
        let again = eng.run(&mut cx, &[r.expr], Run::default()).unwrap();
        assert!(
            !again.roots[0].changed,
            "not idempotent: {} -> {}",
            cx.display(r.expr),
            cx.display(again.roots[0].expr)
        );
    }
    assert!(changed > 100, "{changed}");
}

#[test]
fn casts_fixtures() {
    let eng = engine(vec![Phase::Casts]);
    let same = |src: &str, want: &str| {
        let mut cx = Context::new();
        let o = ParseOptions::width(Width::new(8).unwrap());
        let e = cx.parse(src, &o).unwrap();
        let want = cx.parse(want, &o).unwrap();
        let out = eng.simplify(&mut cx, e).unwrap();
        assert_eq!(out.expr, want, "{src}: got {}", cx.display(out.expr));
    };
    same("trunc<8>(zext<16>(x) + zext<16>(y))", "x + y");
    same("extract<8, 8>(zext<16>(x) << 8)", "x");
    same("trunc<8>(sext<32>(x) * sext<32>(y))", "x * y");
    same("extract<4, 4>(concat(a, b))", "extract<4, 4>(b)");
    same("trunc<4>(x >>u 4)", "extract<4, 4>(x)");
    same("trunc<8>(~(zext<16>(x) ^ zext<16>(y)))", "~(x ^ y)");
    same("extract<8, 8>(zext<16>(x))", "0:8");
    // Opaque operands: narrowing would only add nodes.
    same("trunc<8>(a:16 + b:16)", "trunc<8>(a:16 + b:16)");
    // Equal size: no change (`~trunc<4>(x)` is no smaller).
    same("trunc<4>(~x)", "trunc<4>(~x)");
}

// ----- demanded -----------------------------------------------------------------------------------

#[test]
fn demanded_is_sound_and_idempotent() {
    let eng = engine(vec![Phase::Demanded]);
    let mut g = generator(0xde_3a);
    g.max_w = 8;
    let mut rng = Rng(66);
    let mut changed = 0;
    for i in 0..2500 {
        let mut cx = Context::new();
        let w = if i % 10 == 0 {
            [16, 64, 130][g.rng.below(3) as usize]
        } else {
            1 + g.rng.below(7) as u16
        };
        let width = Width::new(w).unwrap();
        let (x, _) = if i % 3 == 0 {
            (xor_expr(&mut g, &mut cx, w, 4), ())
        } else if i % 3 == 1 {
            (linear_expr(&mut g, &mut cx, w, 4), ())
        } else {
            let (e, _) = g.expr(&mut cx, w.min(8), 4);
            (e, ())
        };
        let width = cx.width(x).unwrap_or(width);
        // Observe it through some bits.
        let e = match g.rng.below(4) {
            0 => {
                let m = g.constant(width.bits());
                let m = cx.constant(&m).unwrap();
                cx.bin(BinOp::And, x, m).unwrap()
            }
            1 => {
                let m = g.constant(width.bits());
                let m = cx.constant(&m).unwrap();
                cx.bin(BinOp::Or, x, m).unwrap()
            }
            2 => {
                let k = cx
                    .constant_u64(width, g.rng.below(u64::from(width.bits())))
                    .unwrap();
                let op = if g.rng.chance(1, 2) {
                    BinOp::Shl
                } else {
                    BinOp::LShr
                };
                cx.bin(op, x, k).unwrap()
            }
            _ => {
                let n = 1 + g.rng.below(u64::from(width.bits())) as u16;
                let lo = g.rng.below(u64::from(width.bits() - n) + 1) as u16;
                cx.extract(x, lo, Width::new(n).unwrap()).unwrap()
            }
        };
        let out = eng.run(&mut cx, &[e], Run::default()).unwrap();
        let r = &out.roots[0];
        assert_eq!(out.stats.rejected, 0);
        assert!(
            equivalent(&mut cx, e, r.expr, &mut rng),
            "{} vs {}",
            cx.display(e),
            cx.display(r.expr)
        );
        changed += u64::from(r.changed);
        cx.forget_results();
        let again = eng.run(&mut cx, &[r.expr], Run::default()).unwrap();
        assert!(
            !again.roots[0].changed,
            "not idempotent: {} -> {}",
            cx.display(r.expr),
            cx.display(again.roots[0].expr)
        );
    }
    assert!(changed > 200, "{changed}");
}

/// A polynomial over one or two symbols, with bitwise operations and constants: the
/// fragment residues read.
fn poly_expr(g: &mut Gen, cx: &mut Context, w: u16, depth: u32) -> Expr {
    let width = Width::new(w).unwrap();
    if depth == 0 || g.rng.chance(1, 4) {
        return match g.rng.below(4) {
            0 => {
                let v = g.constant(w);
                cx.constant(&v).unwrap()
            }
            1 => cx.sym("y", width).unwrap(),
            _ => cx.sym("x", width).unwrap(),
        };
    }
    let d = depth - 1;
    let ops = [
        BinOp::Mul,
        BinOp::Mul,
        BinOp::Add,
        BinOp::Sub,
        BinOp::And,
        BinOp::Or,
        BinOp::Xor,
    ];
    let op = ops[g.rng.below(ops.len() as u64) as usize];
    let (a, b) = (poly_expr(g, cx, w, d), poly_expr(g, cx, w, d));
    cx.bin(op, a, b).unwrap()
}

/// Residues: the low bits of polynomials (masked, compared with constants, shifted up) are
/// decided soundly, exhaustively at small widths.
#[test]
fn residues_are_sound_and_idempotent() {
    let eng = engine(vec![Phase::Demanded, Phase::Compares]);
    let mut g = generator(0x7e51);
    let mut rng = Rng(47);
    let mut changed = 0;
    for i in 0..2000 {
        let mut cx = Context::new();
        let w = if i % 10 == 0 {
            64
        } else {
            1 + g.rng.below(7) as u16
        };
        let width = Width::new(w).unwrap();
        let p = poly_expr(&mut g, &mut cx, w, 3);
        let e = match g.rng.below(3) {
            0 => {
                let m = BitVec::wrapping_from_u64(width, g.rng.below(16));
                let m = cx.constant(&m).unwrap();
                cx.bin(BinOp::And, p, m).unwrap()
            }
            1 => {
                let c = BitVec::wrapping_from_u64(width, g.rng.below(16));
                let c = cx.constant(&c).unwrap();
                cx.cmp(CmpOpExt::Eq, p, c).unwrap()
            }
            _ => {
                let s = cx.constant_u64(width, g.rng.below(u64::from(w))).unwrap();
                cx.bin(BinOp::Shl, p, s).unwrap()
            }
        };
        let out = eng.run(&mut cx, &[e], Run::default()).unwrap();
        let r = &out.roots[0];
        assert_eq!(out.stats.rejected, 0);
        assert!(
            equivalent(&mut cx, e, r.expr, &mut rng),
            "W={w}: {} vs {}",
            cx.display(e),
            cx.display(r.expr)
        );
        changed += u64::from(r.changed);
        cx.forget_results();
        let again = eng.run(&mut cx, &[r.expr], Run::default()).unwrap();
        assert!(
            !again.roots[0].changed,
            "not idempotent: {}",
            cx.display(r.expr)
        );
    }
    assert!(changed > 200, "{changed}");
}

/// Polynomial equality: comparisons of random polynomials (with each other, and with a
/// rearrangement) are decided soundly, exhaustively at small widths.
#[test]
fn polynomial_equality_is_sound() {
    let eng = engine(vec![Phase::Compares]);
    let mut g = generator(0x9017);
    let mut rng = Rng(50);
    let mut decided = 0;
    for i in 0..1500 {
        let mut cx = Context::new();
        let w = if i % 10 == 0 {
            64
        } else {
            1 + g.rng.below(6) as u16
        };
        let a = poly_expr(&mut g, &mut cx, w, 3);
        let b = if g.rng.chance(1, 2) {
            poly_expr(&mut g, &mut cx, w, 3)
        } else {
            // a·(1 + k) − a·k, which expands to a.
            let k = g.constant(w);
            let k = cx.constant(&k).unwrap();
            let one = cx.constant_u64(Width::new(w).unwrap(), 1).unwrap();
            let k1 = cx.bin(BinOp::Add, one, k).unwrap();
            let p = cx.bin(BinOp::Mul, a, k1).unwrap();
            let q = cx.bin(BinOp::Mul, a, k).unwrap();
            cx.bin(BinOp::Sub, p, q).unwrap()
        };
        let op = if g.rng.chance(1, 2) {
            CmpOpExt::Eq
        } else {
            CmpOpExt::Ne
        };
        let e = cx.cmp(op, a, b).unwrap();
        let out = eng.run(&mut cx, &[e], Run::default()).unwrap();
        let r = &out.roots[0];
        assert!(
            equivalent(&mut cx, e, r.expr, &mut rng),
            "W={w}: {} vs {}",
            cx.display(e),
            cx.display(r.expr)
        );
        decided += u64::from(cx.as_const(r.expr).unwrap().is_some());
    }
    assert!(decided > 300, "{decided}");
}

#[test]
fn residue_fixtures() {
    let eng = Engine::standard();
    let same = |src: &str, want: &str| {
        let mut cx = Context::new();
        let o = ParseOptions::width(Width::new(8).unwrap());
        let e = cx.parse(src, &o).unwrap();
        let want = cx.parse(want, &o).unwrap();
        let out = eng.simplify(&mut cx, e).unwrap();
        assert_eq!(out.expr, want, "{src}: got {}", cx.display(out.expr));
    };
    same("(x * x) & 1", "x & 1");
    same("(x * x * x) & 1", "x & 1");
    same("(x * x + x) & 1", "0");
    same("(x * (x + 1) * (x + 2)) & 1", "0");
    same("((x | 1) * (x | 1)) & 7", "1");
    same("(((x | 1) - 1) * ((x | 1) + 1)) & 7", "0");
    same("((x * x) & 3) == 3", "false");
    same("((x * x) & 7) == 5", "false");
    same("x * x == 2", "false");
    same("(x * x) & 2", "0");
    same("(x * x + x) * 0x80", "0");
    same("(x * (x + 1) * ((x + 2) * (x + 3))) * 0x20", "0");
    // A product of two values has no such law.
    same("(x * y) & 1", "(x * y) & 1");
}
/// Case splits on condition masks: random linear and bitwise expressions reading `sext(c)`,
/// `-zext(c)` or a sign mask are equivalent after the split, exhaustively at small widths.
#[test]
fn case_splits_are_sound() {
    let eng = engine(vec![Phase::Linear]);
    let mut g = generator(0xca5e);
    let mut rng = Rng(49);
    let mut changed = 0;
    for i in 0..1500 {
        let mut cx = Context::new();
        let w = if i % 10 == 0 {
            32
        } else {
            2 + g.rng.below(4) as u16
        };
        let width = Width::new(w).unwrap();
        let c = cx.sym("p", Width::new(1).unwrap()).unwrap();
        let x = cx.sym("x", width).unwrap();
        let m = match g.rng.below(3) {
            0 => cx.sext(c, width).unwrap(),
            1 => {
                let z = cx.zext(c, width).unwrap();
                cx.un(UnOp::Neg, z).unwrap()
            }
            _ => {
                let k = cx.constant_u64(width, u64::from(w) - 1).unwrap();
                cx.bin(BinOp::AShr, x, k).unwrap()
            }
        };
        let other = linear_expr(&mut g, &mut cx, w, 2);
        let ops = [BinOp::Add, BinOp::Sub, BinOp::Xor, BinOp::Or, BinOp::And];
        let op1 = ops[g.rng.below(5) as usize];
        let op2 = ops[g.rng.below(5) as usize];
        let inner = cx.bin(op1, other, m).unwrap();
        let e = cx.bin(op2, inner, m).unwrap();
        let out = eng.run(&mut cx, &[e], Run::default()).unwrap();
        let r = &out.roots[0];
        assert_eq!(out.stats.rejected, 0);
        assert!(
            equivalent(&mut cx, e, r.expr, &mut rng),
            "W={w}: {} vs {}",
            cx.display(e),
            cx.display(r.expr)
        );
        changed += u64::from(r.changed);
    }
    assert!(changed > 100, "{changed}");
    // The conditional negation.
    let mut cx = Context::new();
    let e = cx.parse(
            "(x ^ sext<8>(c:1)) - sext<8>(c:1)",
            &ParseOptions::width(Width::new(8).unwrap()),
        )
        .unwrap();
    let out = Engine::standard().simplify(&mut cx, e).unwrap();
    assert_eq!(cx.display(out.expr).to_string(), "select(c, -x, x)");
}

#[test]
fn demanded_fixtures() {
    let eng = engine(vec![Phase::Demanded]);
    let same = |src: &str, want: &str, w: u16| {
        let mut cx = Context::new();
        let o = ParseOptions::width(Width::new(w).unwrap());
        let e = cx.parse(src, &o).unwrap();
        let want = cx.parse(want, &o).unwrap();
        let out = eng.simplify(&mut cx, e).unwrap();
        assert_eq!(out.expr, want, "{src}: got {}", cx.display(out.expr));
    };
    same("(x | 0xff00) & 0x00ff", "x & 0xff", 16);
    same("((x & 0xf0) + y) & 0x0f", "y & 0x0f", 8);
    same("trunc<8>((x << 8) | y)", "trunc<8>(y)", 16);
    same("(x & 0xffff0000) >>u 16", "x >>u 16", 32);
    same("((x ^ 0xff) | 0xf0) & 0x0f", "~x & 15", 8);
    same(
        "(zext<16>(a:8) + (b << 8)) & 0xff",
        "zext<16>(a:8) & 0xff",
        16,
    );
    same(
        "concat(a:8 ^ b:8, l:8) & 0x00ff",
        "zext<16>(l:8) & 0xff",
        16,
    );
}
struct VetoAll;

impl Hooks for VetoAll {
    fn allows(&self, _: &Context, _: Expr, _: Expr, _: By<'_>) -> bool {
        false
    }

    fn admits(&self, _: &Context, _: Expr, _: Expr, _: By<'_>) -> bool {
        false
    }
}

#[test]
fn passes_obey_the_host_veto_and_report_events() {
    let o = ParseOptions::width(Width::new(8).unwrap());
    let mut cx = Context::new();
    let e = cx.parse("((x + r) - r) & ((y ^ k) ^ k)", &o).unwrap();
    let out = Engine::standard()
        .run(
            &mut cx,
            &[e],
            Run::default().with_hooks(&VetoAll),
        )
        .unwrap();
    assert!(!out.roots[0].changed, "{}", cx.display(out.roots[0].expr));
    assert!(out.stats.hook_vetoes > 0);
    // Applied events name the pass, and agree with the counters.
    struct Passes(u64);
    impl Observer for Passes {
        fn event(&mut self, e: Event<'_>) {
            if let Event::Applied {
                by: By::Pass(_),
                ..
            } = e
            {
                self.0 += 1;
            }
        }
    }
    let mut obs = Passes(0);
    let mut cx = Context::new();
    let e = cx.parse("((x + r) - r) & ((y ^ k) ^ k)", &o).unwrap();
    let out = Engine::standard()
        .run(
            &mut cx,
            &[e],
            Run::default().with_observer(&mut obs),
        )
        .unwrap();
    let changed: u64 = changes(&out.stats.passes);
    assert!(changed > 0);
    assert_eq!(obs.0, changed);
    assert!(out.stats.pass_work > 0);
}

#[test]
fn demanded_obeys_fold_known() {
    struct NoFold;
    impl Hooks for NoFold {
        fn allows(&self, _: &Context, _: Expr, _: Expr, _: By<'_>) -> bool {
            true
        }

        fn admits(&self, _: &Context, _: Expr, _: Expr, _: By<'_>) -> bool {
            true
        }

        fn fold_known(&self, _: &Context, _: Expr) -> bool {
            false
        }
    }
    let eng = engine(vec![Phase::Demanded]);
    let mut cx = Context::new();
    let e = cx.parse("(x * 16) & 0x0f", &ParseOptions::width(Width::new(8).unwrap()))
        .unwrap();
    let out = eng
        .run(
            &mut cx,
            &[e],
            Run::default().with_hooks(&NoFold),
        )
        .unwrap();
    assert!(!out.roots[0].changed, "{}", cx.display(out.roots[0].expr));
    // Without the hook it folds.
    assert_eq!(simplify(&eng, "(x * 16) & 0x0f", 8), "0:8");
}
#[test]
fn shared_regions_never_grow_the_dag() {
    for phases in [
        vec![Phase::Linear],
        vec![Phase::Xor],
        Strategy::standard().phases,
    ] {
        let eng = engine(phases);
        let w = Width::new(32).unwrap();
        for op in [BinOp::Add, BinOp::Xor] {
            // (S - a0) * S with S a 60-term chain: S survives, so re-emitting S - a0 grows.
            let mut cx = Context::new();
            let mut s = cx.sym("a0", w).unwrap();
            let mut atoms = vec![s];
            for i in 1..60 {
                let a = cx.sym(format!("a{i}").as_str(), w).unwrap();
                atoms.push(a);
                s = cx.bin(op, s, a).unwrap();
            }
            let inv = if op == BinOp::Add {
                BinOp::Sub
            } else {
                BinOp::Xor
            };
            let d = cx.bin(inv, s, atoms[0]).unwrap();
            let root = cx.bin(BinOp::Mul, d, s).unwrap();
            let before = dag(&mut cx, &[root]);
            let out = eng.run(&mut cx, &[root], Run::default()).unwrap();
            let after = dag(&mut cx, &[out.roots[0].expr]);
            assert!(after <= before, "{op:?}: {before} -> {after}");
            // Many roots sharing S.
            let roots: Vec<Expr> = atoms.iter().map(|&a| cx.bin(inv, s, a).unwrap()).collect();
            let before = dag(&mut cx, &roots);
            let out = eng.run(&mut cx, &roots, Run::default()).unwrap();
            let results: Vec<Expr> = out.roots.iter().map(|r| r.expr).collect();
            let after = dag(&mut cx, &results);
            assert!(after <= before, "{op:?}, 60 roots: {before} -> {after}");
        }
    }
}

#[test]
fn long_chains_build_no_garbage() {
    let eng = engine(vec![Phase::Linear, Phase::Xor]);
    let mut cx = Context::new();
    let w = Width::new(32).unwrap();
    // A chain in an order unrelated to the canonical one, so every re-emission would differ.
    let mut rng = Rng(77);
    let mut names: Vec<u32> = (0..20_000).collect();
    for i in (1..names.len()).rev() {
        let j = rng.below(i as u64 + 1) as usize;
        names.swap(i, j);
    }
    let mut e = cx.sym(format!("s{}", names[0]).as_str(), w).unwrap();
    for &k in &names[1..] {
        let a = cx.sym(format!("s{k}").as_str(), w).unwrap();
        e = cx.bin(BinOp::Add, e, a).unwrap();
    }
    let nodes = cx.len() as u64;
    let out = eng.run(&mut cx, &[e], Run::default()).unwrap();
    assert_eq!(out.roots[0].end, End::Completed);
    assert!(
        out.stats.new_nodes < nodes / 10,
        "{} new nodes for {nodes}",
        out.stats.new_nodes
    );
}

// ----- linear MBA ---------------------------------------------------------------------------------

/// A random linear MBA: a random integer combination of random bitwise functions of up to four
/// atoms (symbols, or a non-linear compound), plus a constant.
fn linear_mba_expr(g: &mut Gen, cx: &mut Context, w: u16) -> Expr {
    let width = Width::new(w).unwrap();
    let natoms = 1 + g.rng.below(4);
    let atoms: Vec<Expr> = (0..natoms)
        .map(|k| {
            if k == 3 {
                let a = cx.sym("a", width).unwrap();
                let b = cx.sym("b", width).unwrap();
                cx.bin(BinOp::Mul, a, b).unwrap()
            } else {
                cx.sym(["a", "b", "c"][k as usize], width).unwrap()
            }
        })
        .collect();
    let terms = 1 + g.rng.below(4);
    let v = g.constant(w);
    let mut e = cx.constant(&v).unwrap();
    for _ in 0..terms {
        // A random bitwise function over the atoms.
        let mut f = atoms[g.rng.below(natoms) as usize];
        for _ in 0..g.rng.below(4) {
            let other = atoms[g.rng.below(natoms) as usize];
            f = match g.rng.below(4) {
                0 => cx.un(UnOp::Not, f).unwrap(),
                1 => cx.bin(BinOp::And, f, other).unwrap(),
                2 => cx.bin(BinOp::Or, f, other).unwrap(),
                _ => cx.bin(BinOp::Xor, f, other).unwrap(),
            };
        }
        // Sometimes under a non-uniform mask (then no longer a bitwise function of the atoms
        // alone: an atom of the fragment, and the pass must not read the mask as uniform).
        if g.rng.chance(1, 4) {
            let m = g.constant(w);
            let m = cx.constant(&m).unwrap();
            f = cx.bin(BinOp::And, f, m).unwrap();
        }
        let k = g.constant(w);
        let k = cx.constant(&k).unwrap();
        let t = cx.bin(BinOp::Mul, f, k).unwrap();
        e = cx
            .bin(
                if g.rng.chance(1, 3) {
                    BinOp::Sub
                } else {
                    BinOp::Add
                },
                e,
                t,
            )
            .unwrap();
    }
    e
}

#[test]
fn linear_mba_is_sound_and_idempotent() {
    let eng = engine(vec![Phase::LinearMba]);
    let mut g = generator(0x3ba);
    let mut rng = Rng(88);
    let mut changed = 0;
    for i in 0..2000 {
        let mut cx = Context::new();
        let w = if i % 10 == 0 {
            [16, 64, 128, 257, 512][g.rng.below(5) as usize]
        } else {
            1 + g.rng.below(6) as u16
        };
        let e = if i % 4 == 0 {
            g.expr(&mut cx, w.min(6), 4).0
        } else {
            linear_mba_expr(&mut g, &mut cx, w)
        };
        let out = eng.run(&mut cx, &[e], Run::default()).unwrap();
        let r = &out.roots[0];
        assert_eq!(out.stats.rejected, 0);
        assert!(
            equivalent(&mut cx, e, r.expr, &mut rng),
            "W={w}: {} vs {}",
            cx.display(e),
            cx.display(r.expr)
        );
        changed += u64::from(r.changed);
        cx.forget_results();
        let again = eng.run(&mut cx, &[r.expr], Run::default()).unwrap();
        assert!(
            !again.roots[0].changed,
            "not idempotent: {} -> {}",
            cx.display(r.expr),
            cx.display(again.roots[0].expr)
        );
    }
    assert!(changed > 200, "{changed}");
}

#[test]
fn linear_mba_identities() {
    let eng = engine(vec![Phase::LinearMba]);
    let same = |src: &str, want: &str, w: u16| {
        let mut cx = Context::new();
        let o = ParseOptions::width(Width::new(w).unwrap());
        let e = cx.parse(src, &o).unwrap();
        let want = cx.parse(want, &o).unwrap();
        let out = eng.simplify(&mut cx, e).unwrap();
        assert_eq!(out.expr, want, "{src}: got {}", cx.display(out.expr));
    };
    for w in [8, 32, 64, 128] {
        same("(x ^ y) + 2 * (x & y)", "x + y", w);
        same("(x | y) - (x & ~y) - (~x & y)", "x & y", w);
        same("(x + y) - 2 * (x & y)", "x ^ y", w);
        same("2 * (x | y) - (x ^ y)", "x + y", w);
        same("(x ^ y) - 2 * (~x & y)", "x - y", w);
        same("(x & y) + (x | y)", "x + y", w);
        same("x + y - (x | y)", "x & y", w);
        same("~x + (x & y) + (x & ~y) + 1", "0", w);
        // Non-uniform masks are not bitwise functions of the atoms.
        same("(x & 0xf0) + (y & 0x0f)", "(x & 0xf0) + (y & 0x0f)", w);
        // Atoms may be compound: (p * q) plays the role of x.
        same("((p * q) ^ r) + 2 * ((p * q) & r)", "p * q + r", w);
    }
}
