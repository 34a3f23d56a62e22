#![allow(dead_code, unused_imports, clippy::all)]

use bitwright::bitvec::{BitVec, Width};
use bitwright::engine::accept::{after_admit, Accept};
use bitwright::engine::budget::{after_reading, Admission, Allowance, Budget, Clock, Deadline, Exhausted};
use bitwright::engine::host::{after_rewrite, is_wrong, Answer};
use bitwright::engine::builder::EngineBuilder;
use bitwright::engine::link::Engine;
use bitwright::engine::alone::{answer_each, distinct_roots, Alone};
use bitwright::engine::run::{Each, End, Outcome, RootOutcome, Run};
use bitwright::engine::stats::{By, Event, Hooks, Observer, PassTable, Reject};
use bitwright::engine::strategy::{Phase, Sharing, Strategy, Verify};
use bitwright::expr::{Context, Error, Expr, Node, NodeView};
use bitwright::facts::known::KnownBits;
use bitwright::facts::store::Assumptions;
use bitwright::ops::{BinOp, CmpOp, CmpOpExt, UnOp};
use bitwright::engine::evidence::{asked_at, chain_link, CacheEntry, Claim, Inquiry, Settled, MbaAnswer, Question, Trust};
use bitwright::engine::stats::{CertVerdict, MbaStats};
use std::collections::{BTreeMap, HashMap, HashSet};

// ----- text ---------------------------------------------------------------------------------------

/// The key of a symbol: its name, of at most eight letters.
fn key(name: &str) -> u64 {
    assert!(!name.is_empty() && name.len() <= 8, "{name}");
    name.bytes().fold(0u64, |k, b| (k << 8) | u64::from(b))
}

fn name_of(key: u64) -> String {
    key.to_be_bytes().iter().filter(|b| **b != 0).map(|b| *b as char).collect()
}

/// The width of symbols and numbers that say none.
struct ParseOptions {
    width: u16,
}

impl ParseOptions {
    fn width(w: Width) -> ParseOptions {
        ParseOptions { width: w.bits() }
    }
}

#[derive(Clone, Debug)]
enum Ast {
    Num(u128, Option<u16>),
    Sym(String, Option<u16>),
    Un(UnOp, Box<Ast>),
    Bin(BinOp, Box<Ast>, Box<Ast>),
    Rel(CmpOpExt, Box<Ast>, Box<Ast>),
    Zext(u16, Box<Ast>),
    Sext(u16, Box<Ast>),
    Extract(u16, u16, Box<Ast>),
    Concat(Box<Ast>, Box<Ast>),
    Select(Box<Ast>, Box<Ast>, Box<Ast>),
}

fn tokens(src: &str) -> Vec<String> {
    let s: Vec<char> = src.chars().collect();
    let mut out = Vec::new();
    let mut i = 0;
    while i < s.len() {
        let c = s[i];
        if c.is_whitespace() {
            i += 1;
            continue;
        }
        let start = i;
        if c.is_alphanumeric() || c == '_' || c == '%' {
            i += 1;
            while i < s.len() && (s[i].is_alphanumeric() || s[i] == '_') {
                i += 1;
            }
        } else {
            let mut n = 1;
            for op in [">>u", ">>s", "<=u", "<=s", ">=u", ">=s", "<<", "==", "!=", "<u", "<s", ">u", ">s"] {
                let o: Vec<char> = op.chars().collect();
                if s[i..].starts_with(&o) {
                    n = o.len();
                    break;
                }
            }
            i += n;
        }
        out.push(s[start..i].iter().collect());
    }
    out
}

struct Parser {
    toks: Vec<String>,
    at: usize,
    lets: HashMap<String, Ast>,
}

impl Parser {
    fn peek(&self) -> &str {
        self.toks.get(self.at).map(|s| s.as_str()).unwrap_or("")
    }

    fn next(&mut self) -> String {
        let t = self.peek().to_string();
        self.at += 1;
        t
    }

    fn want(&mut self, t: &str) {
        let got = self.next();
        assert_eq!(got, t, "in {:?}", self.toks);
    }

    fn number(&mut self) -> u16 {
        self.next().parse().unwrap()
    }

    fn program(&mut self) -> Ast {
        while self.peek() == "let" {
            self.next();
            let name = self.next();
            self.want("=");
            let a = self.expr(0);
            self.want(";");
            self.lets.insert(name, a);
        }
        let a = self.expr(0);
        assert_eq!(self.at, self.toks.len(), "rest of {:?}", self.toks);
        a
    }

    fn expr(&mut self, level: usize) -> Ast {
        if level == 6 {
            return self.unary();
        }
        let mut a = self.expr(level + 1);
        loop {
            let rel = match self.peek() {
                "==" => Some(CmpOpExt::Eq),
                "!=" => Some(CmpOpExt::Ne),
                "<u" => Some(CmpOpExt::Ult),
                "<=u" => Some(CmpOpExt::Ule),
                ">u" => Some(CmpOpExt::Ugt),
                ">=u" => Some(CmpOpExt::Uge),
                "<s" => Some(CmpOpExt::Slt),
                "<=s" => Some(CmpOpExt::Sle),
                ">s" => Some(CmpOpExt::Sgt),
                ">=s" => Some(CmpOpExt::Sge),
                _ => None,
            };
            if let (0, Some(op)) = (level, rel) {
                self.next();
                let b = self.expr(level + 1);
                a = Ast::Rel(op, Box::new(a), Box::new(b));
                continue;
            }
            let op = match (level, self.peek()) {
                (1, "|") => BinOp::Or,
                (2, "^") => BinOp::Xor,
                (3, "&") => BinOp::And,
                (4, "<<") => BinOp::Shl,
                (4, ">>u") => BinOp::LShr,
                (4, ">>s") => BinOp::AShr,
                (5, "+") => BinOp::Add,
                (5, "-") => BinOp::Sub,
                _ => return a,
            };
            self.next();
            let b = self.expr(level + 1);
            a = Ast::Bin(op, Box::new(a), Box::new(b));
        }
    }

    fn unary(&mut self) -> Ast {
        let mut a = self.atom();
        while self.peek() == "*" {
            self.next();
            let b = self.atom();
            a = Ast::Bin(BinOp::Mul, Box::new(a), Box::new(b));
        }
        a
    }

    fn call(&mut self) -> Vec<Ast> {
        self.want("(");
        let mut args = Vec::new();
        loop {
            args.push(self.expr(0));
            if self.next() == ")" {
                return args;
            }
        }
    }

    fn colon(&mut self) -> Option<u16> {
        if self.peek() == ":" {
            self.next();
            Some(self.number())
        } else {
            None
        }
    }

    fn atom(&mut self) -> Ast {
        let t = self.next();
        match t.as_str() {
            "(" => {
                let a = self.expr(0);
                self.want(")");
                return a;
            }
            "~" => return Ast::Un(UnOp::Not, Box::new(self.atom())),
            "-" => return Ast::Un(UnOp::Neg, Box::new(self.atom())),
            "true" => return Ast::Num(1, Some(1)),
            "false" => return Ast::Num(0, Some(1)),
            _ => {}
        }
        if t.starts_with(|c: char| c.is_ascii_digit()) {
            let v = match t.strip_prefix("0x") {
                Some(h) => u128::from_str_radix(h, 16).unwrap(),
                None => t.parse().unwrap(),
            };
            let w = self.colon();
            return Ast::Num(v, w);
        }
        if self.peek() == "<" {
            self.next();
            let n = self.number();
            let m = if self.peek() == "," {
                self.next();
                Some(self.number())
            } else {
                None
            };
            self.want(">");
            let a = Box::new(self.call().remove(0));
            return match t.as_str() {
                "zext" => Ast::Zext(n, a),
                "sext" => Ast::Sext(n, a),
                "trunc" => Ast::Extract(0, n, a),
                "extract" => Ast::Extract(n, m.unwrap(), a),
                _ => panic!("{t}"),
            };
        }
        if self.peek() == "(" {
            let mut args = self.call();
            let mut arg = || Box::new(args.remove(0));
            return match t.as_str() {
                "select" => Ast::Select(arg(), arg(), arg()),
                "concat" => Ast::Concat(arg(), arg()),
                "udiv" => Ast::Bin(BinOp::UDiv, arg(), arg()),
                "urem" => Ast::Bin(BinOp::URem, arg(), arg()),
                "sdiv" => Ast::Bin(BinOp::SDiv, arg(), arg()),
                "srem" => Ast::Bin(BinOp::SRem, arg(), arg()),
                "rotl" => Ast::Bin(BinOp::RotL, arg(), arg()),
                "rotr" => Ast::Bin(BinOp::RotR, arg(), arg()),
                "popcnt" => Ast::Un(UnOp::Popcnt, arg()),
                "clz" => Ast::Un(UnOp::Clz, arg()),
                "ctz" => Ast::Un(UnOp::Ctz, arg()),
                "bswap" => Ast::Un(UnOp::Bswap, arg()),
                "bitrev" => Ast::Un(UnOp::BitRev, arg()),
                _ => panic!("{t}"),
            };
        }
        if let Some(a) = self.lets.get(&t) {
            return a.clone();
        }
        let w = self.colon();
        Ast::Sym(t, w)
    }
}

/// The width of an expression, where its text says it.
fn width_said(a: &Ast, known: &HashMap<String, u16>) -> Option<u16> {
    match a {
        Ast::Num(_, w) => *w,
        Ast::Sym(n, w) => w.or(known.get(n).copied()),
        Ast::Un(_, a) => width_said(a, known),
        Ast::Bin(_, a, b) => width_said(a, known).or(width_said(b, known)),
        Ast::Rel(..) => Some(1),
        Ast::Zext(n, _) | Ast::Sext(n, _) => Some(*n),
        Ast::Extract(_, n, _) => Some(*n),
        Ast::Concat(a, b) => Some(width_said(a, known)? + width_said(b, known)?),
        Ast::Select(_, a, b) => width_said(a, known).or(width_said(b, known)),
    }
}

fn note_widths(a: &Ast, known: &mut HashMap<String, u16>) {
    match a {
        Ast::Num(..) => {}
        Ast::Sym(n, w) => {
            if let Some(w) = w {
                known.insert(n.clone(), *w);
            }
        }
        Ast::Un(_, a) | Ast::Zext(_, a) | Ast::Sext(_, a) | Ast::Extract(_, _, a) => note_widths(a, known),
        Ast::Bin(_, a, b) | Ast::Rel(_, a, b) | Ast::Concat(a, b) => {
            note_widths(a, known);
            note_widths(b, known);
        }
        Ast::Select(a, b, c) => {
            note_widths(a, known);
            note_widths(b, known);
            note_widths(c, known);
        }
    }
}

fn bits_of(w: u16, v: u128) -> BitVec {
    BitVec::from_bools((0..w).map(|i| i < 128 && (v >> i) & 1 == 1).collect())
}

fn elaborate(cx: &mut Context, a: &Ast, w: u16, dflt: u16, known: &HashMap<String, u16>) -> Expr {
    let wd = |n: u16| Width::new(n).unwrap();
    match a {
        Ast::Num(v, n) => cx.constant(&bits_of(n.unwrap_or(w), *v)).unwrap(),
        Ast::Sym(s, n) => {
            let n = n.or(known.get(s).copied()).unwrap_or(w);
            cx.symbol(key(s), wd(n)).unwrap()
        }
        Ast::Un(op, a) => {
            let a = elaborate(cx, a, w, dflt, known);
            cx.un(*op, a).unwrap()
        }
        Ast::Bin(op, a, b) => {
            let n = width_said(a, known).or(width_said(b, known)).unwrap_or(w);
            let a = elaborate(cx, a, n, dflt, known);
            let b = elaborate(cx, b, n, dflt, known);
            cx.bin(*op, a, b).unwrap()
        }
        Ast::Rel(op, a, b) => {
            let n = width_said(a, known).or(width_said(b, known)).unwrap_or(dflt);
            let a = elaborate(cx, a, n, dflt, known);
            let b = elaborate(cx, b, n, dflt, known);
            cx.compare(*op, a, b).unwrap()
        }
        Ast::Zext(n, a) => {
            let k = width_said(a, known).unwrap_or(dflt);
            let a = elaborate(cx, a, k, dflt, known);
            cx.zext(a, wd(*n)).unwrap()
        }
        Ast::Sext(n, a) => {
            let k = width_said(a, known).unwrap_or(dflt);
            let a = elaborate(cx, a, k, dflt, known);
            cx.sext(a, wd(*n)).unwrap()
        }
        Ast::Extract(lo, n, a) => {
            let k = width_said(a, known).unwrap_or(dflt);
            let a = elaborate(cx, a, k, dflt, known);
            cx.extract(a, *lo, wd(*n)).unwrap()
        }
        Ast::Concat(a, b) => {
            let k = width_said(a, known).unwrap_or(dflt);
            let a = elaborate(cx, a, k, dflt, known);
            let k = width_said(b, known).unwrap_or(dflt);
            let b = elaborate(cx, b, k, dflt, known);
            cx.concat(a, b).unwrap()
        }
        Ast::Select(c, a, b) => {
            let n = width_said(a, known).or(width_said(b, known)).unwrap_or(w);
            let c = elaborate(cx, c, 1, dflt, known);
            let a = elaborate(cx, a, n, dflt, known);
            let b = elaborate(cx, b, n, dflt, known);
            cx.select(c, a, b).unwrap()
        }
    }
}

fn operands(v: &NodeView) -> Vec<Expr> {
    match *v {
        NodeView::Const | NodeView::Sym(_) => vec![],
        NodeView::Un(_, a) | NodeView::Zext(a) | NodeView::Sext(a) | NodeView::Extract(a, _) => vec![a],
        NodeView::Bin(_, a, b) | NodeView::Cmp(_, a, b) | NodeView::Concat(a, b) => vec![a, b],
        NodeView::Select(a, b, c) => vec![a, b, c],
    }
}

/// The nodes of `roots`, operands first.
fn nodes_of(cx: &Context, roots: &[Expr]) -> Vec<Expr> {
    let mut out = Vec::new();
    let mut seen = HashSet::new();
    let mut stack: Vec<(Expr, bool)> = roots.iter().rev().map(|e| (*e, false)).collect();
    while let Some((e, done)) = stack.pop() {
        if done {
            out.push(e);
        } else if seen.insert(e) {
            stack.push((e, true));
            for k in operands(&cx.view(e).unwrap()).into_iter().rev() {
                stack.push((k, false));
            }
        }
    }
    out
}

/// A constant, as a signed number where it has more than one bit.
fn const_text(v: &BitVec) -> String {
    let w = v.len();
    let bit = |i: usize| v.bit(i).unwrap();
    if w > 1 && bit(w - 1) && w <= 120 {
        let mut m: i128 = -1;
        for i in 0..w {
            if !bit(i) {
                m -= 1 << i;
            }
        }
        return format!("{m}");
    }
    if (0..w).all(bit) && w > 1 {
        return "-1".to_string();
    }
    let top = (0..w).rev().find(|i| bit(*i)).unwrap_or(0);
    if top < 127 {
        let mut m: u128 = 0;
        for i in 0..=top {
            if bit(i) {
                m += 1 << i;
            }
        }
        return format!("{m}");
    }
    let mut s = String::new();
    for d in (0..=top / 4).rev() {
        let x = (0..4).filter(|i| d * 4 + i < w && bit(d * 4 + i)).map(|i| 1u32 << i).sum::<u32>();
        s.push(char::from_digit(x, 16).unwrap());
    }
    format!("0x{s}")
}

struct Shower<'a> {
    cx: &'a Context,
    names: HashMap<Expr, String>,
}

impl Shower<'_> {
    fn is_const(&self, e: Expr) -> bool {
        matches!(self.cx.view(e).unwrap(), NodeView::Const)
    }

    fn full(&self, e: Expr) -> String {
        match self.cx.as_const(e).unwrap() {
            Some(v) => format!("{}:{}", const_text(&v), v.len()),
            None => self.text(e, true),
        }
    }

    /// An operand beside another one that tells its width.
    fn side(&self, e: Expr, parens: bool) -> String {
        match self.cx.as_const(e).unwrap() {
            Some(v) => const_text(&v),
            None => {
                let infix = matches!(self.cx.view(e).unwrap(), NodeView::Bin(op, ..) if infix(op).is_some())
                    || matches!(self.cx.view(e).unwrap(), NodeView::Cmp(..));
                if parens && infix && !self.names.contains_key(&e) {
                    format!("({})", self.text(e, true))
                } else {
                    self.text(e, true)
                }
            }
        }
    }

    fn text(&self, e: Expr, named: bool) -> String {
        if named {
            if let Some(n) = self.names.get(&e) {
                return n.clone();
            }
        }
        let w = self.cx.width(e).unwrap().bits();
        match self.cx.view(e).unwrap() {
            NodeView::Const => self.full(e),
            NodeView::Sym(k) => name_of(k),
            NodeView::Un(op, a) => match op {
                UnOp::Not => format!("~{}", self.side(a, true)),
                UnOp::Neg => format!("-{}", self.side(a, true)),
                UnOp::Popcnt => format!("popcnt({})", self.full(a)),
                UnOp::Clz => format!("clz({})", self.full(a)),
                UnOp::Ctz => format!("ctz({})", self.full(a)),
                UnOp::Bswap => format!("bswap({})", self.full(a)),
                UnOp::BitRev => format!("bitrev({})", self.full(a)),
            },
            NodeView::Bin(op, a, b) => match infix(op) {
                Some(o) => {
                    let chain = matches!(op, BinOp::Add | BinOp::Mul | BinOp::And | BinOp::Or | BinOp::Xor);
                    let same = matches!(self.cx.view(a).unwrap(), NodeView::Bin(p, ..) if p == op) && chain;
                    let sum = matches!(op, BinOp::Add | BinOp::Sub);
                    let product = |e: Expr| sum && matches!(self.cx.view(e).unwrap(), NodeView::Bin(BinOp::Mul, ..));
                    format!("{} {o} {}", self.side(a, !same && !product(a)), self.side(b, !product(b)))
                }
                None => {
                    let f = match op {
                        BinOp::UDiv => "udiv",
                        BinOp::URem => "urem",
                        BinOp::SDiv => "sdiv",
                        BinOp::SRem => "srem",
                        BinOp::RotL => "rotl",
                        _ => "rotr",
                    };
                    format!("{f}({}, {})", self.full(a), self.full(b))
                }
            },
            NodeView::Cmp(op, a, b) => {
                let o = match op {
                    CmpOp::Eq => "==",
                    CmpOp::Ne => "!=",
                    CmpOp::Ult => "<u",
                    CmpOp::Ule => "<=u",
                    CmpOp::Slt => "<s",
                    CmpOp::Sle => "<=s",
                };
                format!("{} {o} {}", self.side(a, true), self.side(b, true))
            }
            NodeView::Zext(a) => format!("zext<{w}>({})", self.full(a)),
            NodeView::Sext(a) => format!("sext<{w}>({})", self.full(a)),
            NodeView::Extract(a, 0) => format!("trunc<{w}>({})", self.full(a)),
            NodeView::Extract(a, lo) => format!("extract<{lo}, {w}>({})", self.full(a)),
            NodeView::Concat(a, b) => format!("concat({}, {})", self.full(a), self.full(b)),
            NodeView::Select(c, a, b) => {
                format!("select({}, {}, {})", self.full(c), self.full(a), self.full(b))
            }
        }
    }
}

fn infix(op: BinOp) -> Option<&'static str> {
    Some(match op {
        BinOp::Add => "+",
        BinOp::Sub => "-",
        BinOp::Mul => "*",
        BinOp::And => "&",
        BinOp::Or => "|",
        BinOp::Xor => "^",
        BinOp::Shl => "<<",
        BinOp::LShr => ">>u",
        BinOp::AShr => ">>s",
        _ => return None,
    })
}

/// Expressions as text.
trait Text {
    fn sym(&mut self, name: &str, w: Width) -> Result<Expr, Error>;
    fn parse(&mut self, src: &str, o: &ParseOptions) -> Result<Expr, Error>;
    fn display(&self, e: Expr) -> String;
    fn cmp(&mut self, op: CmpOpExt, a: Expr, b: Expr) -> Result<Expr, Error>;
}

impl Text for Context {
    fn sym(&mut self, name: &str, w: Width) -> Result<Expr, Error> {
        self.symbol(key(name), w)
    }

    fn parse(&mut self, src: &str, o: &ParseOptions) -> Result<Expr, Error> {
        let mut p = Parser { toks: tokens(src), at: 0, lets: HashMap::new() };
        let a = p.program();
        let mut known = HashMap::new();
        note_widths(&a, &mut known);
        let w = width_said(&a, &known).unwrap_or(o.width);
        Ok(elaborate(self, &a, w, o.width, &known))
    }

    fn display(&self, e: Expr) -> String {
        let all = nodes_of(self, &[e]);
        let mut uses: HashMap<Expr, usize> = HashMap::new();
        for n in &all {
            for k in operands(&self.view(*n).unwrap()) {
                *uses.entry(k).or_insert(0) += 1;
            }
        }
        let mut s = Shower { cx: self, names: HashMap::new() };
        let mut out = String::new();
        for n in &all {
            if uses.get(n).copied().unwrap_or(0) > 1 && !operands(&self.view(*n).unwrap()).is_empty() {
                let name = format!("%{}", s.names.len());
                out.push_str(&format!("let {name} = {};\n", s.text(*n, false)));
                s.names.insert(*n, name);
            }
        }
        out + &s.full(e)
    }

    fn cmp(&mut self, op: CmpOpExt, a: Expr, b: Expr) -> Result<Expr, Error> {
        self.compare(op, a, b)
    }
}

// ----- random expressions -------------------------------------------------------------------------

const RELS: [CmpOpExt; 10] = [
    CmpOpExt::Eq,
    CmpOpExt::Ne,
    CmpOpExt::Ult,
    CmpOpExt::Ule,
    CmpOpExt::Ugt,
    CmpOpExt::Uge,
    CmpOpExt::Slt,
    CmpOpExt::Sle,
    CmpOpExt::Sgt,
    CmpOpExt::Sge,
];

const UNS: [UnOp; 6] = [UnOp::Not, UnOp::Neg, UnOp::Popcnt, UnOp::Clz, UnOp::Ctz, UnOp::BitRev];

const BINS: [BinOp; 15] = [
    BinOp::Add,
    BinOp::Sub,
    BinOp::Mul,
    BinOp::UDiv,
    BinOp::URem,
    BinOp::SDiv,
    BinOp::SRem,
    BinOp::And,
    BinOp::Or,
    BinOp::Xor,
    BinOp::Shl,
    BinOp::LShr,
    BinOp::AShr,
    BinOp::RotL,
    BinOp::RotR,
];

struct Rng(u64);

impl Rng {
    fn next(&mut self) -> u64 {
        self.0 = self.0.wrapping_add(0x9e37_79b9_7f4a_7c15);
        let mut z = self.0;
        z = (z ^ (z >> 30)).wrapping_mul(0xbf58_476d_1ce4_e5b9);
        z = (z ^ (z >> 27)).wrapping_mul(0x94d0_49bb_1331_11eb);
        z ^ (z >> 31)
    }

    fn below(&mut self, n: u64) -> u64 {
        self.next() % n
    }

    fn chance(&mut self, a: u64, b: u64) -> bool {
        self.below(b) < a
    }

    fn value(&mut self, w: u16) -> BitVec {
        let v: Vec<bool> = match self.below(6) {
            0 => vec![false; w as usize],
            1 => vec![true; w as usize],
            2 => {
                let k = self.below(u64::from(w)) as u16;
                (0..w).map(|i| i == k).collect()
            }
            3 => {
                let x = self.below(16);
                (0..w).map(|i| i < 8 && (x >> i) & 1 == 1).collect()
            }
            _ => (0..w).map(|_| self.chance(1, 2)).collect(),
        };
        BitVec::from_bools(v)
    }
}

struct Gen {
    rng: Rng,
    max_w: u16,
}

fn generator(seed: u64) -> Gen {
    Gen { rng: Rng(seed), max_w: 6 }
}

impl Gen {
    fn constant(&mut self, w: u16) -> BitVec {
        self.rng.value(w)
    }

    /// A random expression of `w` bits over every operator.
    fn expr(&mut self, cx: &mut Context, w: u16, depth: u32) -> (Expr, u32) {
        let width = Width::new(w).unwrap();
        if depth == 0 || self.rng.chance(1, 6) {
            let e = if self.rng.chance(1, 4) {
                let v = self.constant(w);
                cx.constant(&v).unwrap()
            } else {
                let n = ["a", "b", "c"][self.rng.below(3) as usize];
                cx.sym(&format!("{n}{w}"), width).unwrap()
            };
            return (e, depth);
        }
        let d = depth - 1;
        let e = match self.rng.below(10) {
            0 => {
                let a = self.expr(cx, w, d).0;
                cx.un(UNS[self.rng.below(6) as usize], a).unwrap()
            }
            1 if w > 1 => {
                let n = 1 + self.rng.below(u64::from(w) - 1) as u16;
                let a = self.expr(cx, n, d).0;
                if self.rng.chance(1, 2) {
                    cx.zext(a, width).unwrap()
                } else {
                    cx.sext(a, width).unwrap()
                }
            }
            2 if w < self.max_w => {
                let n = w + 1 + self.rng.below(u64::from(self.max_w - w)) as u16;
                let a = self.expr(cx, n, d).0;
                let lo = self.rng.below(u64::from(n - w) + 1) as u16;
                cx.extract(a, lo, width).unwrap()
            }
            3 if w > 1 => {
                let n = 1 + self.rng.below(u64::from(w) - 1) as u16;
                let (a, b) = (self.expr(cx, n, d).0, self.expr(cx, w - n, d).0);
                cx.concat(a, b).unwrap()
            }
            4 => {
                let c = self.expr(cx, 1, d).0;
                let (a, b) = (self.expr(cx, w, d).0, self.expr(cx, w, d).0);
                cx.select(c, a, b).unwrap()
            }
            5 if w == 1 => {
                let n = 1 + self.rng.below(u64::from(self.max_w)) as u16;
                let (a, b) = (self.expr(cx, n, d).0, self.expr(cx, n, d).0);
                cx.compare(RELS[self.rng.below(10) as usize], a, b).unwrap()
            }
            _ => {
                let (a, b) = (self.expr(cx, w, d).0, self.expr(cx, w, d).0);
                cx.bin(BINS[self.rng.below(15) as usize], a, b).unwrap()
            }
        };
        (e, depth)
    }
}

/// The symbols of two expressions, with their widths.
fn symbols(cx: &Context, roots: &[Expr]) -> BTreeMap<u64, u16> {
    let mut out = BTreeMap::new();
    for e in nodes_of(cx, roots) {
        if let NodeView::Sym(k) = cx.view(e).unwrap() {
            out.insert(k, cx.width(e).unwrap().bits());
        }
    }
    out
}

/// Whether two expressions agree: everywhere where their symbols have few bits, else at some
/// values.
fn equivalent(cx: &mut Context, a: Expr, b: Expr, rng: &mut Rng) -> bool {
    if a == b {
        return true;
    }
    let syms: Vec<(u64, u16)> = symbols(cx, &[a, b]).into_iter().collect();
    let total: u32 = syms.iter().map(|s| u32::from(s.1)).sum();
    let agree = |env: &Vec<(u64, BitVec)>| cx.eval(a, env).unwrap().same(&cx.eval(b, env).unwrap());
    if total <= 9 {
        for x in 0..(1u64 << total) {
            let mut at = 0;
            let mut env = Vec::new();
            for (k, w) in &syms {
                env.push((*k, bits_of(*w, u128::from(x >> at) & ((1 << w) - 1))));
                at += w;
            }
            if !agree(&env) {
                return false;
            }
        }
        return true;
    }
    for _ in 0..40 {
        let env: Vec<(u64, BitVec)> = syms.iter().map(|(k, w)| (*k, rng.value(*w))).collect();
        if !agree(&env) {
            return false;
        }
    }
    true
}

/// How many nodes `roots` have together.
fn dag(cx: &mut Context, roots: &[Expr]) -> u32 {
    nodes_of(cx, roots).len() as u32
}

/// An engine running `phases` with the default verification: the tests' own equivalence
/// checks are the oracle (strict verification would reject a wrong rewrite before any test
/// could see it).
fn engine(phases: Vec<Phase>) -> Engine {
    Engine::builder().builtin().strategy(Strategy::new("t", phases)).build().unwrap()
}

fn simplify(eng: &Engine, src: &str, w: u16) -> String {
    let mut cx = Context::new();
    let e = cx.parse(src, &ParseOptions::width(Width::new(w).unwrap())).unwrap();
    let out = eng.simplify(&mut cx, e).unwrap();
    cx.display(out.expr).to_string()
}

/// Checks what `eng` makes of `src`.
fn becomes(eng: &Engine, src: &str, want: &str, w: u16) {
    let mut cx = Context::new();
    let o = ParseOptions::width(Width::new(w).unwrap());
    let e = cx.parse(src, &o).unwrap();
    let want = cx.parse(want, &o).unwrap();
    let out = eng.simplify(&mut cx, e).unwrap();
    assert_eq!(out.expr, want, "{src}: got {}", cx.display(out.expr));
}

// ----- polynomials and linear maps over bits ------------------------------------------------------

#[test]
fn polynomial_fixtures() {
    let eng = engine(vec![Phase::Compares]);
    becomes(&eng, "(x + y) * (x - y) == x * x - y * y", "true", 8);
    becomes(&eng, "(x + y) * (x - y) != x * x - y * y", "false", 32);
    becomes(
        &eng,
        "(x + y) * (x * x - x * y + y * y) == x * x * x + y * y * y",
        "true",
        64,
    );
    becomes(&eng, "(x << 3) * y == x * y * 8", "true", 16);
    // Different polynomials are left undecided.
    becomes(&eng, "x * y == x * z", "x * y == x * z", 8);
}

#[test]
fn bit_matrix_fixtures() {
    let eng = engine(vec![Phase::Xor]);
    // At 8 bits the shifts of the square are past the width.
    becomes(
        &eng,
        "let y = x ^ (x >>u 5) ^ (x >>u 7); y ^ (y >>u 5) ^ (y >>u 7)",
        "x",
        8,
    );
    becomes(&eng, "rotl(rotl(rotl(x, 3) ^ 5, 2), 3)", "x ^ 0xa0", 8);
    becomes(&eng, "bswap(bswap(x) ^ rotl(bswap(x), 8)) ^ bswap(rotl(bswap(x), 8))", "x", 32);
    // Two atoms are not a map of one.
    becomes(&eng, "(x >>u 1) ^ (y >>u 1) ^ (x >>u 2)", "(x >>u 1) ^ (y >>u 1) ^ (x >>u 2)", 8);
}

#[test]
fn bit_matrices_are_sound() {
    let eng = engine(vec![Phase::Xor]);
    let mut g = generator(0x6f2);
    let mut rng = Rng(71);
    let mut changed = 0;
    for _ in 0..600 {
        let mut cx = Context::new();
        let w = 2 + g.rng.below(7) as u16;
        let wd = Width::new(w).unwrap();
        let x = cx.sym("x", wd).unwrap();
        let mut e = x;
        for _ in 0..4 {
            let k = cx.constant_u64(wd, g.rng.below(u64::from(w))).unwrap();
            let op = [BinOp::Shl, BinOp::LShr, BinOp::AShr, BinOp::RotL, BinOp::RotR][g.rng.below(5) as usize];
            let t = cx.bin(op, e, k).unwrap();
            e = match g.rng.below(4) {
                0 => cx.bin(BinOp::Xor, e, t).unwrap(),
                1 => {
                    let m = g.constant(w);
                    let m = cx.constant(&m).unwrap();
                    let t = cx.bin(BinOp::And, t, m).unwrap();
                    cx.bin(BinOp::Xor, e, t).unwrap()
                }
                2 => cx.un(UnOp::Not, t).unwrap(),
                _ => t,
            };
        }
        let out = eng.run(&mut cx, &[e], Run::default()).unwrap();
        let r = &out.roots[0];
        assert!(equivalent(&mut cx, e, r.expr, &mut rng), "{} vs {}", cx.display(e), cx.display(r.expr));
        changed += u64::from(r.changed);
    }
    assert!(changed > 50, "{changed}");
}

// ----- the built-in rules -------------------------------------------------------------------------

#[test]
fn built_in_rules_apply() {
    let groups = vec![
        "core.bitwise".to_string(),
        "core.arith".to_string(),
        "core.compare".to_string(),
        "core.casts".to_string(),
        "core.shift".to_string(),
    ];
    let eng = engine(vec![Phase::Local { groups }]);
    becomes(&eng, "x & (x | y)", "x", 8);
    becomes(&eng, "x | (x & y)", "x", 8);
    becomes(&eng, "x & ~x", "0", 8);
    becomes(&eng, "x | ~x", "0xff", 8);
    becomes(&eng, "x ^ ~x", "0xff", 8);
    becomes(&eng, "-(x - y)", "y - x", 8);
    becomes(&eng, "x * 8", "x << 3", 8);
    becomes(&eng, "(x ^ y) == 0", "x == y", 8);
    becomes(&eng, "(x - y) != 0", "x != y", 8);
    becomes(&eng, "0xff >>s x", "0xff", 8);
}

#[test]
fn strategies_name_the_built_in_groups() {
    for s in [Strategy::standard(), Strategy::deobfuscate(), Strategy::compile()] {
        let name = s.name.clone();
        let eng = Engine::builder().builtin().strategy(s).build().unwrap();
        assert_eq!(eng.strategy().name, name);
        let mut cx = Context::new();
        let e = cx.parse("(x + r) - r", &ParseOptions::width(Width::new(8).unwrap())).unwrap();
        let out = eng.simplify(&mut cx, e).unwrap();
        assert_eq!(cx.display(out.expr), "x", "{name}");
    }
    // A strategy that names a group no program defines does not link.
    let s = Strategy::new("t", vec![]).with_rule_groups(&["acme"]);
    assert!(Engine::builder().builtin().strategy(s).build().is_err());
    // The built-in rules cannot be linked twice.
    assert!(Engine::builder().builtin().builtin().build().is_err());
}

// ----- one root at a time -------------------------------------------------------------------------

#[test]
fn roots_alone_answer_as_calls_with_one_root() {
    let eng = Engine::standard();
    let mut cx = Context::new();
    let o = ParseOptions::width(Width::new(32).unwrap());
    let a = cx.parse("(x + r) - r", &o).unwrap();
    let b = cx.parse("(y ^ k) ^ k", &o).unwrap();
    let roots = [a, b, a];
    let distinct = distinct_roots(&roots);
    assert_eq!(distinct, vec![a, b]);
    let done: Vec<Alone> = distinct.iter().map(|e| eng.run_alone(&cx, *e, &Each::default()).unwrap()).collect();
    let out = answer_each(&mut cx, &roots, &distinct, &done).unwrap();
    let shown: Vec<String> = out.iter().map(|r| cx.display(r.expr)).collect();
    assert_eq!(shown, ["x", "y", "x"]);
    assert!(out.iter().all(|r| r.changed && r.end == End::Completed));
    // A handle that is not the context's.
    assert!(matches!(
        eng.run_alone(&cx, Expr { id: 1 << 30 }, &Each::default()),
        Err(Error::BadHandle)
    ));
    // Assumptions are copied along.
    let odd = cx.parse("(k & 1) == 1", &o).unwrap();
    let e = cx.parse("x * k == y * k", &o).unwrap();
    let mut s = Assumptions::new();
    s.assume_true(&cx, odd).unwrap();
    let r = eng.run_alone(&cx, e, &Each::default().with_assumptions(&s)).unwrap();
    assert_eq!(r.cx.display(r.outcome.expr), "x == y");
    assert!(!r.outcome.relies_on.is_none());
}

// ----- budgets and statistics ---------------------------------------------------------------------

#[test]
fn budgets_and_allowances() {
    let a = Budget::unlimited().with_pass_work(7).with_rewrites(3);
    let b = Budget::unlimited().with_pass_work(5).with_node_visits(9);
    let m = a.min(&b);
    assert_eq!((m.pass_work, m.rewrites, m.node_visits), (5, 3, 9));
    assert_eq!(a.min(&b), b.min(&a));
    let eng = engine(vec![Phase::Linear]);
    let mut cx = Context::new();
    let e = cx.parse("(x + r) - r", &ParseOptions::width(Width::new(8).unwrap())).unwrap();
    let mut left = Allowance::new(Budget::unlimited().with_pass_work(1000));
    let out = eng.run(&mut cx, &[e], Run::default().with_allowance(&mut left)).unwrap();
    assert_eq!(left.remaining().pass_work, 1000 - out.stats.pass_work);
    assert_eq!(left.spent().pass_work, out.stats.pass_work);
    assert!(out.stats.pass_work > 0);
    // The statistics of two calls add up, in either order.
    let mut p = out.stats;
    cx.forget_results();
    let again = eng.run(&mut cx, &[e], Run::default()).unwrap();
    let mut q = again.stats;
    let (p0, q0) = (p, q);
    p.absorb(&q0);
    q.absorb(&p0);
    assert_eq!(p, q);
    assert_eq!(p.pass_work, p0.pass_work + q0.pass_work);
}

#[test]
fn admission_caps_decline_a_root() {
    let eng = engine(vec![Phase::Linear]);
    let mut cx = Context::new();
    let e = cx.parse("(x + r) - r", &ParseOptions::width(Width::new(8).unwrap())).unwrap();
    let mut a = Admission::default();
    a.max_root_height = 1;
    let out = eng.run(&mut cx, &[e], Run::default().with_admission(a)).unwrap();
    assert!(matches!(out.roots[0].end, End::Declined(_)));
    assert!(!out.roots[0].changed);
    assert!(matches!(eng.run(&mut cx, &[Expr { id: 99 }], Run::default()), Err(Error::BadHandle)));
}

// ----- evidence for answers -----------------------------------------------------------------------

/// What comes of a question, where each service says what is given.
fn ask(
    trust: Trust,
    cached: Option<CacheEntry>,
    answer: MbaAnswer,
    agrees: bool,
    own: (CertVerdict, bool),
    prover: Option<CertVerdict>,
) -> (Settled, u32) {
    let mut q = Question::new(trust, prover.is_some());
    let mut calls = 0;
    for _ in 0..6 {
        match q.next() {
            Inquiry::LookUp => q.cached = Some(cached),
            Inquiry::AskSolver => {
                calls += 1;
                q.answer = Some(answer);
            }
            Inquiry::Sample => q.sampled = Some(agrees),
            Inquiry::Certify => q.own = Some(own),
            Inquiry::AskProver => q.prover = prover,
            Inquiry::Done(g) => return (g, calls),
        }
    }
    panic!("never done");
}

#[test]
fn only_evidence_is_taken() {
    let none = Trust { backend_certificates: false, sampled: false };
    let word = Trust { backend_certificates: true, sampled: false };
    let loose = Trust { backend_certificates: false, sampled: true };
    let simple = |claim| MbaAnswer::Simplified { fits: true, claim };
    let unknown = (CertVerdict::Unknown, false);
    let proved = (CertVerdict::Proved, false);
    // A liar is refuted, whatever is trusted.
    for t in [none, word, loose] {
        assert_eq!(ask(t, None, simple(Claim::Proved), false, proved, None).0, Settled::Refuted);
        let own = (CertVerdict::Refuted, false);
        assert_eq!(ask(t, None, simple(Claim::Proved), true, own, None).0, Settled::Refuted);
        let bad = MbaAnswer::Simplified { fits: false, claim: Claim::Proved };
        assert_eq!(ask(t, None, bad, true, proved, None).0, Settled::Refuted);
    }
    // Proofs are taken, of the certificates or of a prover.
    assert_eq!(ask(none, None, simple(Claim::Unproved), true, proved, None).0, Settled::Take);
    let p = Some(CertVerdict::Proved);
    assert_eq!(ask(none, None, simple(Claim::Unproved), true, unknown, p).0, Settled::Take);
    // Without one, what is trusted decides.
    let open = Settled::Unknown { capped: false };
    assert_eq!(ask(none, None, simple(Claim::Proved), true, unknown, None).0, open);
    assert_eq!(ask(word, None, simple(Claim::Unproved), true, unknown, None).0, open);
    assert_eq!(ask(word, None, simple(Claim::Proved), true, unknown, None).0, Settled::Take);
    assert_eq!(ask(loose, None, simple(Claim::Unproved), true, unknown, None).0, Settled::Take);
}

#[test]
fn answers_are_kept_and_final_where_they_can_be() {
    let none = Trust { backend_certificates: false, sampled: false };
    let simple = MbaAnswer::Simplified { fits: true, claim: Claim::Unproved };
    let proved = (CertVerdict::Proved, false);
    // What the cache holds is not asked again.
    assert_eq!(ask(none, Some(CacheEntry::Simplified), simple, true, proved, None), (Settled::Cached, 0));
    assert_eq!(ask(none, Some(CacheEntry::NoSimpler), simple, true, proved, None), (Settled::KnownSimplest, 0));
    assert_eq!(ask(none, None, simple, true, proved, None), (Settled::Take, 1));
    assert_eq!(Settled::Take.kept(), Some(CacheEntry::Simplified));
    assert_eq!(Settled::NoSimpler.kept(), Some(CacheEntry::NoSimpler));
    assert_eq!(Settled::Exhausted.kept(), None);
    // More budget might do better: not final.
    assert!(!Settled::Exhausted.fin().done);
    assert!(!Settled::Unknown { capped: true }.fin().done);
    assert!(Settled::Unknown { capped: false }.fin().done && Settled::NoSimpler.fin().done);
    let mut s = MbaStats::zero();
    for (a, own) in [
        (MbaAnswer::NoSimpler, proved),
        (MbaAnswer::Unsupported, proved),
        (MbaAnswer::Exhausted, proved),
        (simple, (CertVerdict::Unknown, true)),
        (simple, (CertVerdict::Refuted, false)),
    ] {
        ask(none, None, a, true, own, None).0.count(&mut s);
    }
    assert_eq!(
        (s.no_simpler, s.unsupported, s.exhausted, s.proof_unknown, s.refuted),
        (1, 1, 1, 1, 1)
    );
}

#[test]
fn links_of_chains_are_covered_by_their_users() {
    let (add, mul, neg) = (Node::Bin(BinOp::Add, 0, 1), Node::Bin(BinOp::Mul, 0, 1), Node::Un(UnOp::Neg, 0));
    assert!(chain_link(&add, &add) && chain_link(&add, &neg) && chain_link(&mul, &mul));
    assert!(!chain_link(&add, &mul) && !chain_link(&mul, &add));
    let shl = Node::Bin(BinOp::Shl, 0, 1);
    assert!(asked_at(&add, false) && !asked_at(&shl, false) && asked_at(&shl, true));
    assert!(!asked_at(&Node::Zext(0), true));
}

// ----- laws on given values -----------------------------------------------------------------------

#[test]
fn results_compose_and_stay_right() {
    let eng = Engine::standard();
    let o = ParseOptions::width(Width::new(8).unwrap());
    let mut rng = Rng(4);
    let mut cx = Context::new();
    let e = cx.parse("((x + r) - r) & ((y ^ k) ^ k) | 0", &o).unwrap();
    let first = eng.simplify(&mut cx, e).unwrap();
    // Building more does not disturb what is kept.
    let _ = cx.parse("(a * b + c) ^ (a - d)", &o).unwrap();
    let again = eng.simplify(&mut cx, e).unwrap();
    assert_eq!(first.expr, again.expr);
    let second = eng.simplify(&mut cx, first.expr).unwrap();
    assert!(equivalent(&mut cx, e, second.expr, &mut rng));
    assert!(!second.changed && second.relies_on.is_none());
}

#[test]
fn deadlines_stop_a_call() {
    struct Ticks(std::cell::Cell<u64>);
    impl Clock for Ticks {
        fn now_ticks(&self) -> u64 {
            self.0.set(self.0.get() + 1);
            self.0.get()
        }
    }
    let clock = Ticks(std::cell::Cell::new(0));
    let eng = Engine::standard();
    let mut cx = Context::new();
    let e = cx.parse("((x + r) - r) & ((y ^ k) ^ k)", &ParseOptions::width(Width::new(8).unwrap())).unwrap();
    let d = Deadline::new(&clock, 2).with_check_every(1);
    let out = eng.run(&mut cx, &[e], Run::default().with_deadline(d)).unwrap();
    assert!(matches!(out.roots[0].end, End::BudgetTerminated(_)));
    let mut rng = Rng(6);
    assert!(equivalent(&mut cx, e, out.roots[0].expr, &mut rng));
}

// ----- what the library is for --------------------------------------------------------------------

#[test]
fn standard_engine_examples() {
    let eng = Engine::standard();
    // Arithmetic and boolean masking cancel.
    becomes(&eng, "(x & y) + (x | y)", "x + y", 64);
    becomes(&eng, "(x & y) + (x | y)", "x + y", 32);
    becomes(&eng, "((x ^ 0x5a) + 3 - 3) ^ 0x5a", "x", 64);
    // Multiplying by an odd constant is a bijection: equal products, equal inputs.
    becomes(&eng, "x * 0x87c37b91114253d5 == y * 0x87c37b91114253d5", "x == y", 64);
    // A comparison through a keyed hash mixer becomes a comparison of its input.
    becomes(
        &eng,
        "let m = (x ^ 0xd3220fb78e33751f) * 0xd3220fb78e33751f; \
         (m ^ ((m >>u 32) >>u (m >>u 60))) * 0xd3220fb78e33751f == 0",
        "x == 0xd3220fb78e33751f",
        64,
    );
}

/// What a call of `eng` on `roots` under `run` gives.
fn called<'a>(eng: &'a Engine, cx: &mut Context, roots: &[Expr], run: Run<'a>) -> Outcome {
    eng.run(cx, roots, run).unwrap()
}

#[test]
fn without_visits_nothing_is_done() {
    let eng = Engine::standard();
    let mut cx = Context::new();
    let e = cx.parse("x + y", &ParseOptions::width(Width::new(8).unwrap())).unwrap();
    let n = cx.len();
    let out = called(&eng, &mut cx, &[e], Run::default().with_per_call(Budget::zero()));
    assert_eq!(out.roots.len(), 1);
    assert_eq!(out.roots[0].expr, e);
    assert!(!out.roots[0].changed);
    assert_eq!(out.roots[0].end, End::BudgetTerminated(Exhausted::NodeVisits));
    assert_eq!((out.stats.node_visits, out.stats.new_nodes), (0, 0));
    assert_eq!((out.stats.budget_terminated.unchanged, out.stats.budget_terminated.changed), (1, 0));
    assert_eq!((out.stats.completed.unchanged, out.stats.completed.changed), (0, 0));
    assert_eq!(cx.len(), n);
}

#[test]
fn every_distinct_root_is_counted_once() {
    let eng = Engine::standard();
    let mut cx = Context::new();
    let o = ParseOptions::width(Width::new(32).unwrap());
    let e = cx.parse("x * k == y * k", &o).unwrap();
    let y = cx.parse("y", &o).unwrap();
    let c = cx.parse("(k & 1) == 1", &o).unwrap();
    let mut a = Assumptions::new();
    a.assume_true(&cx, c).unwrap();
    let out = called(&eng, &mut cx, &[e, y, e], Run::default().with_assumptions(&a));
    assert_eq!(out.roots.len(), 3);
    assert_eq!(cx.display(out.roots[0].expr), "x == y");
    assert!(out.roots[0].changed && !out.roots[0].relies_on.is_none());
    assert_eq!(out.roots[2], out.roots[0]);
    assert_eq!(out.roots[1].expr, y);
    assert!(!out.roots[1].changed && out.roots[1].relies_on.is_none());
    assert_eq!((out.stats.completed.unchanged, out.stats.completed.changed), (1, 1));
    assert_eq!(out.stats.declined, 0);
}

#[test]
fn contradictory_assumptions_justify_nothing() {
    let eng = Engine::standard();
    let o = ParseOptions::width(Width::new(32).unwrap());
    let plain = {
        let mut cx = Context::new();
        let e = cx.parse("x * k == y * k", &o).unwrap();
        let out = called(&eng, &mut cx, &[e], Run::default());
        (cx.display(out.roots[0].expr), out.roots[0].end)
    };
    let mut cx = Context::new();
    let e = cx.parse("x * k == y * k", &o).unwrap();
    let c = cx.parse("(k & 1) == 1", &o).unwrap();
    let mut a = Assumptions::new();
    a.assume_true(&cx, c).unwrap();
    let never = KnownBits::constant(&BitVec::from_bools(vec![false]));
    a.assume_known(&cx, c, never).unwrap();
    assert!(a.is_infeasible());
    let out = called(&eng, &mut cx, &[e], Run::default().with_assumptions(&a));
    assert!(out.roots[0].relies_on.is_none());
    assert_eq!((cx.display(out.roots[0].expr), out.roots[0].end), plain);
}

#[test]
fn accounts_are_charged_what_calls_report() {
    let eng = Engine::standard();
    let mut cx = Context::new();
    let e = cx.parse("(x & y) + (x | y)", &ParseOptions::width(Width::new(8).unwrap())).unwrap();
    let limit = Budget::default();
    let mut a = Allowance::new(limit);
    let out = called(&eng, &mut cx, &[e], Run::default().with_allowance(&mut a));
    assert!(out.stats.node_visits > 0 && out.stats.rewrites > 0);
    assert_eq!(a.spent().node_visits, out.stats.node_visits);
    assert_eq!(a.spent().rewrites, out.stats.rewrites);
    assert_eq!(a.spent().pass_work, out.stats.pass_work);
    assert_eq!(a.spent().mba_calls, out.stats.mba.calls);
    assert_eq!(a.remaining().node_visits, limit.node_visits - out.stats.node_visits);
}

#[test]
fn what_is_settled_is_answered_without_work() {
    let eng = Engine::standard();
    let mut cx = Context::new();
    let o = ParseOptions::width(Width::new(8).unwrap());
    let e = cx.parse("(x & y) + (x | y)", &o).unwrap();
    let first = eng.simplify(&mut cx, e).unwrap();
    assert_eq!(first.end, End::Completed);
    // The result is a fixed point: a second call over it changes nothing and does no pass work.
    let n = cx.len();
    let again = called(&eng, &mut cx, &[first.expr], Run::default());
    assert_eq!(again.roots[0].expr, first.expr);
    assert_eq!(again.roots[0].end, End::Completed);
    assert_eq!((again.stats.node_visits, again.stats.pass_work), (0, 0));
    assert_eq!(cx.len(), n);
}

#[test]
fn readings_and_answers_decide() {
    assert_eq!(after_reading(4, 5), Ok(()));
    assert_eq!(after_reading(5, 5), Err(Exhausted::Deadline));
    assert_eq!(after_reading(6, 5), Err(Exhausted::Deadline));
    assert_eq!(after_admit(true), Accept::Yes);
    assert_eq!(after_admit(false), Accept::Vetoed);
    let mut cx = Context::new();
    let o = ParseOptions::width(Width::new(8).unwrap());
    let x = cx.parse("x", &o).unwrap();
    let e = cx.parse("x + y", &o).unwrap();
    let big = cx.parse("(x + y) * z", &o).unwrap();
    let n = e.id;
    assert_eq!(after_rewrite(&cx, n, None), Answer::Nothing);
    assert_eq!(after_rewrite(&cx, n, Some(Expr { id: u32::MAX })), Answer::Foreign);
    assert_eq!(after_rewrite(&cx, n, Some(e)), Answer::Same);
    assert_eq!(after_rewrite(&cx, n, Some(big)), Answer::NotSmaller);
    assert_eq!(after_rewrite(&cx, n, Some(x)), Answer::Candidate(x.id));
    assert!(is_wrong(Reject::Width) && is_wrong(Reject::Verify) && is_wrong(Reject::Tripwire));
    assert!(!is_wrong(Reject::Termination));
}

#[test]
fn build_errors_read() {
    let s = Strategy::new("t", vec![Phase::Local { groups: vec!["nope".to_string()] }]);
    let e = Engine::builder().builtin().strategy(s).build();
    match e {
        Err(e) => assert_eq!(e.text(), "the strategy names unknown group `nope`"),
        Ok(_) => panic!("an unknown group was linked"),
    }
}
