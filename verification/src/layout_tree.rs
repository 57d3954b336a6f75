//! Tmux layout trees: reading, writing, scaling and pruning.
//!
//! Tmux writes the layout of a window as `checksum,WxH,X,Y{child,child,...}`:
//! - `{children}` is a horizontal split, children side by side,
//! - `[children]` is a vertical split, children stacked,
//! - `WxH,X,Y,pane_id` is a leaf pane.
//!
//! The checksum is four hexadecimal digits, of tmux's rotate-right-and-add sum.

use vstd::prelude::*;

use crate::model::SidebarPosition;
use crate::text;

verus! {

/// A rectangle in tmux's layout coordinates.
#[derive(Debug, Clone, Copy, PartialEq, Eq, Structural)]
pub struct Rect {
    pub w: u16,
    pub h: u16,
    pub x: u16,
    pub y: u16,
}

/// A node of a layout tree.
#[derive(Debug, PartialEq, Eq)]
pub enum LayoutNode {
    Leaf { rect: Rect, pane_id: u32 },
    HSplit { rect: Rect, children: Vec<LayoutNode> },
    VSplit { rect: Rect, children: Vec<LayoutNode> },
}

/// The mathematical layout tree.
pub enum Tree {
    Leaf { rect: Rect, pane_id: u32 },
    HSplit { rect: Rect, children: Seq<Tree> },
    VSplit { rect: Rect, children: Seq<Tree> },
}

/// The trees of a run of nodes.
pub open spec fn forest(nodes: Seq<LayoutNode>) -> Seq<Tree>
    decreases nodes,
{
    Seq::new(
        nodes.len(),
        |i: int|
            if 0 <= i < nodes.len() {
                tree(nodes[i])
            } else {
                arbitrary()
            },
    )
}

/// The tree that a node stands for.
pub open spec fn tree(node: LayoutNode) -> Tree
    decreases node,
{
    match node {
        LayoutNode::Leaf { rect, pane_id } => Tree::Leaf { rect, pane_id },
        LayoutNode::HSplit { rect, children } => Tree::HSplit { rect, children: forest(children@) },
        LayoutNode::VSplit { rect, children } => Tree::VSplit { rect, children: forest(children@) },
    }
}

impl View for LayoutNode {
    type V = Tree;

    open spec fn view(&self) -> Tree {
        tree(*self)
    }
}

// ── Grammar ─────────────────────────────────────────────────────

pub open spec fn digit_byte(b: u8) -> bool {
    48 <= b <= 57
}

/// How many digits stand at the front of `b`.
pub open spec fn digit_run(b: Seq<u8>) -> nat
    decreases b.len(),
{
    if b.len() > 0 && digit_byte(b[0]) {
        1 + digit_run(b.skip(1))
    } else {
        0
    }
}

/// The number that the digits `b` spell.
pub open spec fn value(b: Seq<u8>) -> nat
    decreases b.len(),
{
    if b.len() == 0 {
        0
    } else {
        value(b.drop_last()) * 10 + (b.last() - 48) as nat
    }
}

/// Reads the digits at the front of `b` as a number no more than `max`, and gives what follows.
pub open spec fn read_num(b: Seq<u8>, max: nat) -> Option<(nat, Seq<u8>)> {
    let k = digit_run(b) as int;
    if k > 0 && value(b.take(k)) <= max {
        Some((value(b.take(k)), b.skip(k)))
    } else {
        None
    }
}

/// Reads one given byte.
pub open spec fn read_byte(b: Seq<u8>, c: u8) -> Option<Seq<u8>> {
    if b.len() > 0 && b[0] == c {
        Some(b.skip(1))
    } else {
        None
    }
}

/// Reads a number and the byte behind it.
pub open spec fn read_num_then(b: Seq<u8>, max: nat, c: u8) -> Option<(nat, Seq<u8>)> {
    match read_num(b, max) {
        Some((n, r)) => match read_byte(r, c) {
            Some(r2) => Some((n, r2)),
            None => None,
        },
        None => None,
    }
}

/// Reads `WxH,X,Y`.
pub open spec fn read_rect(b: Seq<u8>) -> Option<(Rect, Seq<u8>)> {
    match read_num_then(b, 0xffff, 120) {
        Some((w, b1)) => match read_num_then(b1, 0xffff, 44) {
            Some((h, b2)) => match read_num_then(b2, 0xffff, 44) {
                Some((x, b3)) => match read_num(b3, 0xffff) {
                    Some((y, b4)) => Some((Rect { w: w as u16, h: h as u16, x: x as u16, y: y as u16 }, b4)),
                    None => None,
                },
                None => None,
            },
            None => None,
        },
        None => None,
    }
}

proof fn lemma_digit_run(b: Seq<u8>)
    ensures
        digit_run(b) <= b.len(),
        forall|i: int| 0 <= i < digit_run(b) ==> digit_byte(#[trigger] b[i]),
        digit_run(b) < b.len() ==> !digit_byte(b[digit_run(b) as int]),
    decreases b.len(),
{
    if b.len() > 0 && digit_byte(b[0]) {
        lemma_digit_run(b.skip(1));
        let k = digit_run(b.skip(1));
        assert forall|i: int| 0 <= i < digit_run(b) implies digit_byte(#[trigger] b[i]) by {
            if i > 0 {
                assert(b.skip(1)[i - 1] == b[i]);
            }
        }
        if k < b.skip(1).len() {
            assert(b.skip(1)[k as int] == b[k as int + 1]);
        }
    }
}

proof fn lemma_digit_run_is(b: Seq<u8>, k: int)
    requires
        0 <= k <= b.len(),
        forall|i: int| 0 <= i < k ==> digit_byte(#[trigger] b[i]),
        k < b.len() ==> !digit_byte(b[k]),
    ensures
        digit_run(b) == k,
{
    lemma_digit_run(b);
    let r = digit_run(b) as int;
    if r < k {
        assert(digit_byte(b[r]));
    }
    if k < r {
        assert(digit_byte(b[k]));
    }
}

pub proof fn lemma_read_num_shortens(b: Seq<u8>, max: nat)
    ensures
        read_num(b, max) matches Some((n, r)) ==> r.len() < b.len() && n <= max,
{
    lemma_digit_run(b);
}

pub proof fn lemma_read_rect_shortens(b: Seq<u8>)
    ensures
        read_rect(b) matches Some((t, r)) ==> r.len() < b.len(),
{
    lemma_read_num_shortens(b, 0xffff);
    if let Some((w, b1)) = read_num_then(b, 0xffff, 120) {
        lemma_read_num_shortens(b1, 0xffff);
        if let Some((h, b2)) = read_num_then(b1, 0xffff, 44) {
            lemma_read_num_shortens(b2, 0xffff);
            if let Some((x, b3)) = read_num_then(b2, 0xffff, 44) {
                lemma_read_num_shortens(b3, 0xffff);
            }
        }
    }
}

/// Reads one node, and gives what follows.
pub open spec fn read_node(b: Seq<u8>) -> Option<(Tree, Seq<u8>)>
    decreases b.len(), 0int,
{
    proof {
        lemma_read_rect_shortens(b);
    }
    match read_rect(b) {
        Some((rect, r)) => if r.len() == 0 {
            None
        } else if r[0] == 123 {
            match read_children(r.skip(1), 125) {
                Some((children, r2)) => Some((Tree::HSplit { rect, children }, r2)),
                None => None,
            }
        } else if r[0] == 91 {
            match read_children(r.skip(1), 93) {
                Some((children, r2)) => Some((Tree::VSplit { rect, children }, r2)),
                None => None,
            }
        } else if r[0] == 44 {
            match read_num(r.skip(1), 0xffff_ffff) {
                Some((n, r2)) => Some((Tree::Leaf { rect, pane_id: n as u32 }, r2)),
                None => None,
            }
        } else {
            None
        },
        None => None,
    }
}

/// Reads nodes parted by commas, up to and with the byte `close`.
pub open spec fn read_children(b: Seq<u8>, close: u8) -> Option<(Seq<Tree>, Seq<u8>)>
    decreases b.len(), 1int,
{
    match read_node(b) {
        Some((t, r)) => if r.len() == 0 || r.len() >= b.len() {
            None
        } else if r[0] == close {
            Some((seq![t], r.skip(1)))
        } else if r[0] == 44 {
            match read_children(r.skip(1), close) {
                Some((ts, r2)) => Some((seq![t] + ts, r2)),
                None => None,
            }
        } else {
            None
        },
        None => None,
    }
}

/// The tree that a whole layout string spells: four bytes of checksum, a comma, and one node.
pub open spec fn read_layout(b: Seq<u8>) -> Option<Tree> {
    if b.len() < 5 || b[4] != 44 {
        None
    } else {
        match read_node(b.skip(5)) {
            Some((t, r)) => if r.len() == 0 {
                Some(t)
            } else {
                None
            },
            None => None,
        }
    }
}

pub proof fn lemma_read_node_shortens(b: Seq<u8>)
    ensures
        read_node(b) matches Some((t, r)) ==> r.len() < b.len(),
    decreases b.len(), 0int,
{
    lemma_read_rect_shortens(b);
    if let Some((rect, r)) = read_rect(b) {
        if r.len() > 0 {
            lemma_read_num_shortens(r.skip(1), 0xffff_ffff);
            lemma_read_children_shortens(r.skip(1), 125);
            lemma_read_children_shortens(r.skip(1), 93);
        }
    }
}

proof fn lemma_read_children_shortens(b: Seq<u8>, close: u8)
    ensures
        read_children(b, close) matches Some((t, r)) ==> r.len() < b.len(),
    decreases b.len(), 1int,
{
    if let Some((t, r)) = read_node(b) {
        if r.len() > 0 && r.len() < b.len() {
            lemma_read_children_shortens(r.skip(1), close);
        }
    }
}

// ── Parser ──────────────────────────────────────────────────────

/// A position in the bytes of a layout.
pub struct Parser<'a> {
    pub input: &'a [u8],
    pub pos: usize,
}

impl<'a> Parser<'a> {
    pub open spec fn wf(&self) -> bool {
        self.pos <= self.input@.len()
    }

    /// What is still to be read.
    pub open spec fn rest(&self) -> Seq<u8> {
        self.input@.skip(self.pos as int)
    }

    fn peek(&self) -> (r: Option<u8>)
        requires
            self.wf(),
        ensures
            r == (if self.rest().len() > 0 {
                Some(self.rest()[0])
            } else {
                None::<u8>
            }),
    {
        if self.pos < self.input.len() {
            Some(self.input[self.pos])
        } else {
            None
        }
    }

    fn advance(&mut self)
        requires
            old(self).wf(),
            old(self).rest().len() > 0,
        ensures
            final(self).wf(),
            final(self).input == old(self).input,
            final(self).pos == old(self).pos + 1,
            final(self).rest() == old(self).rest().skip(1),
    {
        if self.pos < self.input.len() {
            self.pos = self.pos + 1;
        }
        proof {
            assert(self.rest() =~= old(self).rest().skip(1));
        }
    }

    fn expect(&mut self, ch: u8) -> (r: Option<()>)
        requires
            old(self).wf(),
        ensures
            final(self).wf(),
            final(self).input == old(self).input,
            r is Some <==> read_byte(old(self).rest(), ch) is Some,
            r is Some ==> Some(final(self).rest()) == read_byte(old(self).rest(), ch),
    {
        match self.peek() {
            Some(c) => if c == ch {
                self.advance();
                Some(())
            } else {
                None
            },
            None => None,
        }
    }

    /// Reads a number no more than `max`.
    fn parse_num(&mut self, max: u32) -> (r: Option<u32>)
        requires
            old(self).wf(),
        ensures
            final(self).wf(),
            final(self).input == old(self).input,
            match r {
                Some(n) => read_num(old(self).rest(), max as nat) == Some((n as nat, final(self).rest())),
                None => read_num(old(self).rest(), max as nat) is None,
            },
    {
        let start: usize = self.pos;
        let ghost b = self.rest();
        let mut n: u64 = 0;
        let mut over = false;
        while self.pos < self.input.len() && self.input[self.pos] >= 48 && self.input[self.pos] <= 57
            invariant
                self.input == old(self).input,
                self.wf(),
                start <= self.pos,
                b == self.input@.skip(start as int),
                b.len() == self.input@.len() - start,
                forall|i: int| 0 <= i < self.pos - start ==> digit_byte(#[trigger] b[i]),
                over ==> value(b.take(self.pos - start)) > max,
                !over ==> n == value(b.take(self.pos - start)) && n <= max,
            decreases self.input@.len() - self.pos,
        {
            let d: u64 = (self.input[self.pos] - 48) as u64;
            proof {
                let k = self.pos - start;
                assert(b[k] == self.input@[self.pos as int]);
                assert(b.take(k + 1).drop_last() =~= b.take(k));
                assert(b.take(k + 1).last() == b[k]);
            }
            if !over {
                n = n * 10 + d;
                if n > max as u64 {
                    over = true;
                }
            }
            self.pos = self.pos + 1;
        }
        proof {
            let k = self.pos - start;
            if k < b.len() {
                assert(b[k] == self.input@[self.pos as int]);
            }
            lemma_digit_run_is(b, k);
            assert(self.rest() =~= b.skip(k));
        }
        if self.pos == start || over {
            None
        } else {
            Some(n as u32)
        }
    }

    fn parse_u16(&mut self) -> (r: Option<u16>)
        requires
            old(self).wf(),
        ensures
            final(self).wf(),
            final(self).input == old(self).input,
            match r {
                Some(n) => read_num(old(self).rest(), 0xffff) == Some((n as nat, final(self).rest())),
                None => read_num(old(self).rest(), 0xffff) is None,
            },
    {
        let ghost b = self.rest();
        match self.parse_num(0xffff) {
            Some(n) => {
                proof {
                    lemma_read_num_shortens(b, 0xffff);
                }
                Some(n as u16)
            },
            None => None,
        }
    }

    /// Reads the `WxH,X,Y` that begins every node.
    fn parse_rect(&mut self) -> (r: Option<Rect>)
        requires
            old(self).wf(),
        ensures
            final(self).wf(),
            final(self).input == old(self).input,
            match r {
                Some(rect) => read_rect(old(self).rest()) == Some((rect, final(self).rest())),
                None => read_rect(old(self).rest()) is None,
            },
    {
        let w: u16 = self.parse_u16()?;
        self.expect(120)?;
        let h: u16 = self.parse_u16()?;
        self.expect(44)?;
        let x: u16 = self.parse_u16()?;
        self.expect(44)?;
        let y: u16 = self.parse_u16()?;
        Some(Rect { w, h, x, y })
    }

    /// Reads one node, leaf or split.
    fn parse_node(&mut self) -> (r: Option<LayoutNode>)
        requires
            old(self).wf(),
        ensures
            final(self).wf(),
            final(self).input == old(self).input,
            match r {
                Some(node) => read_node(old(self).rest()) == Some((node@, final(self).rest())),
                None => read_node(old(self).rest()) is None,
            },
        decreases old(self).rest().len(), 0int,
    {
        let ghost b = self.rest();
        proof {
            lemma_read_rect_shortens(b);
        }
        let rect = self.parse_rect()?;
        match self.peek() {
            Some(123) => {
                self.advance();
                let children = self.parse_children(125)?;
                Some(LayoutNode::HSplit { rect, children })
            },
            Some(91) => {
                self.advance();
                let children = self.parse_children(93)?;
                Some(LayoutNode::VSplit { rect, children })
            },
            Some(44) => {
                self.advance();
                let pane_id: u32 = self.parse_num(0xffff_ffff)?;
                Some(LayoutNode::Leaf { rect, pane_id })
            },
            _ => None,
        }
    }

    /// Reads children parted by commas, up to the closing bracket.
    fn parse_children(&mut self, close: u8) -> (r: Option<Vec<LayoutNode>>)
        requires
            old(self).wf(),
            close != 44,
        ensures
            final(self).wf(),
            final(self).input == old(self).input,
            match r {
                Some(children) => read_children(old(self).rest(), close) == Some(
                    (forest(children@), final(self).rest()),
                ),
                None => read_children(old(self).rest(), close) is None,
            },
        decreases old(self).rest().len(), 1int,
    {
        let ghost b0 = self.rest();
        let mut children: Vec<LayoutNode> = Vec::new();
        proof {
            if let Some((ts, r)) = read_children(b0, close) {
                assert(forest(children@) + ts =~= ts);
            }
        }
        loop
            invariant
                self.wf(),
                self.input == old(self).input,
                close != 44,
                b0 == old(self).rest(),
                self.rest().len() <= b0.len(),
                read_children(b0, close) == match read_children(self.rest(), close) {
                    Some((ts, r)) => Some((forest(children@) + ts, r)),
                    None => None,
                },
            decreases self.rest().len(),
        {
            let ghost b = self.rest();
            let ghost before = children@;
            proof {
                lemma_read_node_shortens(b);
            }
            let node = self.parse_node()?;
            children.push(node);
            proof {
                assert(forest(children@) =~= forest(before) + seq![node@]);
            }
            match self.peek() {
                Some(c) => {
                    if c == close {
                        self.advance();
                        return Some(children);
                    }
                    if c == 44 {
                        self.advance();
                        proof {
                            if let Some((ts, r)) = read_children(self.rest(), close) {
                                assert(forest(before) + (seq![node@] + ts) =~= forest(children@) + ts);
                            }
                        }
                    } else {
                        return None;
                    }
                },
                None => return None,
            }
        }
    }
}

/// Reads a tmux layout string, with its checksum, into a tree.
pub fn parse_layout(layout: &str) -> (r: Option<LayoutNode>)
    ensures
        match r {
            Some(node) => read_layout(vstd::utf8::encode_utf8(layout@)) == Some(node@),
            None => read_layout(vstd::utf8::encode_utf8(layout@)) is None,
        },
{
    let bytes = layout.as_bytes();
    if bytes.len() < 5 || bytes[4] != 44 {
        return None;
    }
    let mut parser = Parser { input: bytes, pos: 5 };
    let node = parser.parse_node()?;
    if parser.pos == parser.input.len() {
        Some(node)
    } else {
        None
    }
}

// ── Serializer ──────────────────────────────────────────────────

pub open spec fn rect_text(r: Rect) -> Seq<char> {
    text::numeral(r.w as nat) + seq!['x'] + text::numeral(r.h as nat) + seq![','] + text::numeral(r.x as nat) + seq![
        ',',
    ] + text::numeral(r.y as nat)
}

/// How tmux writes a node.
pub open spec fn node_text(t: Tree) -> Seq<char>
    decreases t,
{
    match t {
        Tree::Leaf { rect, pane_id } => rect_text(rect) + seq![','] + text::numeral(pane_id as nat),
        Tree::HSplit { rect, children } => rect_text(rect) + seq!['{'] + children_text(children) + seq!['}'],
        Tree::VSplit { rect, children } => rect_text(rect) + seq!['['] + children_text(children) + seq![']'],
    }
}

/// How tmux writes siblings: parted by commas.
pub open spec fn children_text(ts: Seq<Tree>) -> Seq<char>
    decreases ts,
{
    if ts.len() == 0 {
        seq![]
    } else if ts.len() == 1 {
        node_text(ts[0])
    } else {
        children_text(ts.drop_last()) + seq![','] + node_text(ts.last())
    }
}

fn push_rect(r: &Rect, out: &mut String)
    ensures
        final(out)@ == old(out)@ + rect_text(*r),
{
    text::push_decimal(out, r.w as u64);
    out.push('x');
    text::push_decimal(out, r.h as u64);
    out.push(',');
    text::push_decimal(out, r.x as u64);
    out.push(',');
    text::push_decimal(out, r.y as u64);
    proof {
        assert(out@ =~= old(out)@ + rect_text(*r));
    }
}

fn write_children(nodes: &Vec<LayoutNode>, out: &mut String)
    ensures
        final(out)@ == old(out)@ + children_text(forest(nodes@)),
    decreases nodes@, 1int,
{
    let mut i: usize = 0;
    proof {
        assert(old(out)@ + children_text(forest(nodes@).take(0)) =~= old(out)@);
    }
    while i < nodes.len()
        invariant
            0 <= i <= nodes.len(),
            out@ == old(out)@ + children_text(forest(nodes@).take(i as int)),
        decreases nodes.len() - i,
    {
        let ghost ts = forest(nodes@);
        let ghost start = out@;
        if i > 0 {
            out.push(',');
        }
        write_node(&nodes[i], out);
        proof {
            assert(ts[i as int] == nodes@[i as int]@);
            let next = ts.take(i + 1);
            assert(next.drop_last() =~= ts.take(i as int));
            assert(next.last() == ts[i as int]);
            if i == 0 {
                assert(next[0] == ts[0]);
                assert(out@ =~= old(out)@ + children_text(next));
            } else {
                assert(out@ =~= old(out)@ + children_text(next));
            }
        }
        i += 1;
    }
    proof {
        assert(forest(nodes@).take(nodes@.len() as int) =~= forest(nodes@));
    }
}

fn write_node(node: &LayoutNode, out: &mut String)
    ensures
        final(out)@ == old(out)@ + node_text(node@),
    decreases node, 2int,
{
    match node {
        LayoutNode::Leaf { rect, pane_id } => {
            push_rect(rect, out);
            out.push(',');
            text::push_decimal(out, *pane_id as u64);
        },
        LayoutNode::HSplit { rect, children } => {
            push_rect(rect, out);
            out.push('{');
            write_children(children, out);
            out.push('}');
        },
        LayoutNode::VSplit { rect, children } => {
            push_rect(rect, out);
            out.push('[');
            write_children(children, out);
            out.push(']');
        },
    }
    proof {
        assert(out@ =~= old(out)@ + node_text(node@));
    }
}

/// Writes a node in tmux's format, without checksum.
pub fn serialize_node(node: &LayoutNode) -> (s: String)
    ensures
        s@ == node_text(node@),
{
    let mut out = String::new();
    write_node(node, &mut out);
    proof {
        assert(Seq::<char>::empty() + node_text(node@) =~= node_text(node@));
    }
    out
}

/// One step of the checksum: rotate right by one bit.
pub open spec fn rotated(c: u16) -> u16 {
    (c >> 1) | ((c & 1) << 15)
}

/// Tmux's layout checksum: rotate right by one bit and add, byte by byte.
pub open spec fn checksum(b: Seq<u8>) -> u16
    decreases b.len(),
{
    if b.len() == 0 {
        0
    } else {
        ((rotated(checksum(b.drop_last())) + b.last()) % 0x10000) as u16
    }
}

/// Computes tmux's layout checksum.
pub fn layout_checksum(layout: &str) -> (c: u16)
    ensures
        c == checksum(vstd::utf8::encode_utf8(layout@)),
{
    let bytes = layout.as_bytes();
    let mut csum: u16 = 0;
    let mut i: usize = 0;
    while i < bytes.len()
        invariant
            0 <= i <= bytes@.len(),
            csum == checksum(bytes@.take(i as int)),
        decreases bytes@.len() - i,
    {
        csum = (csum >> 1) | ((csum & 1) << 15);
        csum = csum.wrapping_add(bytes[i] as u16);
        proof {
            assert(bytes@.take(i + 1).drop_last() =~= bytes@.take(i as int));
        }
        i += 1;
    }
    proof {
        assert(bytes@.take(bytes@.len() as int) =~= bytes@);
    }
    csum
}

/// The lower-case hexadecimal digit `d`.
pub open spec fn hex_char(d: nat) -> char {
    if d < 10 {
        (48 + d) as char
    } else {
        (87 + d) as char
    }
}

/// Four lower-case hexadecimal digits.
pub open spec fn hex4(n: u16) -> Seq<char> {
    seq![
        hex_char((n / 4096) as nat),
        hex_char(((n / 256) % 16) as nat),
        hex_char(((n / 16) % 16) as nat),
        hex_char((n % 16) as nat),
    ]
}

/// A whole layout string: the checksum of the node's text, a comma, and that text.
pub open spec fn layout_text(t: Tree) -> Seq<char> {
    hex4(checksum(vstd::utf8::encode_utf8(node_text(t)))) + seq![','] + node_text(t)
}

fn push_hex_digit(out: &mut String, d: u16)
    requires
        d < 16,
    ensures
        final(out)@ == old(out)@.push(hex_char(d as nat)),
{
    let c: char = if d < 10 {
        (48u8 + d as u8) as char
    } else {
        (87u8 + d as u8) as char
    };
    out.push(c);
}

/// Writes a layout tree as a tmux layout string with its checksum.
pub fn serialize_layout(root: &LayoutNode) -> (s: String)
    ensures
        s@ == layout_text(root@),
{
    let body = serialize_node(root);
    let sum: u16 = layout_checksum(body.as_str());
    let mut out = String::new();
    push_hex_digit(&mut out, sum / 4096);
    push_hex_digit(&mut out, (sum / 256) % 16);
    push_hex_digit(&mut out, (sum / 16) % 16);
    push_hex_digit(&mut out, sum % 16);
    out.push(',');
    out.append(body.as_str());
    proof {
        assert(out@ =~= layout_text(root@));
    }
    out
}

// ── Reading back what was written ───────────────────────────────

/// The bytes of ASCII text.
pub open spec fn bytes(s: Seq<char>) -> Seq<u8> {
    Seq::new(s.len(), |i: int| s[i] as u8)
}

/// Whether every split of `t` has a child. Tmux has no empty splits and cannot write one.
pub open spec fn filled(t: Tree) -> bool
    decreases t,
{
    match t {
        Tree::Leaf { .. } => true,
        Tree::HSplit { children, .. } => children.len() > 0 && all_filled(children),
        Tree::VSplit { children, .. } => children.len() > 0 && all_filled(children),
    }
}

pub open spec fn all_filled(ts: Seq<Tree>) -> bool
    decreases ts,
{
    forall|i: int| 0 <= i < ts.len() ==> filled(#[trigger] ts[i])
}

proof fn lemma_value_is(ds: Seq<char>)
    requires
        text::all_digits(ds),
    ensures
        value(bytes(ds)) == text::digits_value(ds),
    decreases ds.len(),
{
    if ds.len() > 0 {
        lemma_value_is(ds.drop_last());
        assert(bytes(ds).drop_last() =~= bytes(ds.drop_last()));
        assert(text::is_digit(ds.last()));
    }
}

proof fn lemma_read_numeral(n: nat, max: nat, rest: Seq<u8>)
    requires
        n <= max,
        rest.len() == 0 || !digit_byte(rest[0]),
    ensures
        read_num(bytes(text::numeral(n)) + rest, max) == Some((n, rest)),
{
    let ds = text::numeral(n);
    let b = bytes(ds) + rest;
    text::lemma_numeral(n);
    assert forall|i: int| 0 <= i < ds.len() implies digit_byte(#[trigger] b[i]) by {
        assert(text::is_digit(ds[i]));
    }
    lemma_digit_run_is(b, ds.len() as int);
    assert(b.take(ds.len() as int) =~= bytes(ds));
    assert(b.skip(ds.len() as int) =~= rest);
    lemma_value_is(ds);
}

proof fn lemma_bytes_join(a: Seq<char>, c: char, b: Seq<char>, rest: Seq<u8>)
    ensures
        bytes(a + seq![c] + b) + rest == bytes(a) + (seq![c as u8] + (bytes(b) + rest)),
{
    assert(bytes(a + seq![c] + b) + rest =~= bytes(a) + (seq![c as u8] + (bytes(b) + rest)));
}

proof fn lemma_read_num_then_text(n: u16, c: u8, tail: Seq<u8>)
    requires
        !digit_byte(c),
    ensures
        read_num_then(bytes(text::numeral(n as nat)) + (seq![c] + tail), 0xffff, c) == Some((n as nat, tail)),
{
    lemma_read_numeral(n as nat, 0xffff, seq![c] + tail);
    assert((seq![c] + tail).skip(1) =~= tail);
}

proof fn lemma_read_rect_text(r: Rect, rest: Seq<u8>)
    requires
        rest.len() == 0 || !digit_byte(rest[0]),
    ensures
        read_rect(bytes(rect_text(r)) + rest) == Some((r, rest)),
{
    let (w, h) = (text::numeral(r.w as nat), text::numeral(r.h as nat));
    let (x, y) = (text::numeral(r.x as nat), text::numeral(r.y as nat));
    let b3 = bytes(y) + rest;
    let b2 = bytes(x) + (seq![44u8] + b3);
    let b1 = bytes(h) + (seq![44u8] + b2);
    lemma_read_numeral(r.y as nat, 0xffff, rest);
    lemma_read_num_then_text(r.x, 44, b3);
    lemma_read_num_then_text(r.h, 44, b2);
    lemma_read_num_then_text(r.w, 120, b1);
    let wh = w + seq!['x'] + h;
    let whx = wh + seq![','] + x;
    lemma_bytes_join(whx, ',', y, rest);
    lemma_bytes_join(wh, ',', x, seq![44u8] + b3);
    lemma_bytes_join(w, 'x', h, seq![44u8] + b2);
}

proof fn lemma_children_text_front(ts: Seq<Tree>)
    requires
        ts.len() > 1,
    ensures
        children_text(ts) == node_text(ts[0]) + seq![','] + children_text(ts.skip(1)),
    decreases ts.len(),
{
    let front = ts.drop_last();
    assert(ts.skip(1).last() == ts.last());
    if ts.len() == 2 {
        assert(front[0] == ts[0]);
        assert(ts.skip(1)[0] == ts.last());
        assert(children_text(front) == node_text(ts[0]));
        assert(children_text(ts.skip(1)) == node_text(ts.last()));
    } else {
        lemma_children_text_front(front);
        assert(front.skip(1) =~= ts.skip(1).drop_last());
        assert(children_text(ts) =~= node_text(ts[0]) + seq![','] + children_text(ts.skip(1)));
    }
}

/// A node's text, wherever it stands before something that is no digit, is read as that node.
pub proof fn lemma_read_node_text(t: Tree, rest: Seq<u8>)
    requires
        filled(t),
        rest.len() == 0 || !digit_byte(rest[0]),
    ensures
        read_node(bytes(node_text(t)) + rest) == Some((t, rest)),
    decreases t, 0int,
{
    let b = bytes(node_text(t)) + rest;
    let rect = rect_of(t);
    let (open, body) = match t {
        Tree::Leaf { pane_id, .. } => (',', text::numeral(pane_id as nat)),
        Tree::HSplit { children, .. } => ('{', children_text(children) + seq!['}']),
        Tree::VSplit { children, .. } => ('[', children_text(children) + seq![']']),
    };
    let inner = bytes(body) + rest;
    let tail = seq![open as u8] + inner;
    assert(b == bytes(rect_text(rect)) + tail) by {
        assert(node_text(t) =~= rect_text(rect) + seq![open] + body);
        lemma_bytes_join(rect_text(rect), open, body, rest);
    }
    lemma_read_rect_text(rect, tail);
    assert(tail.skip(1) =~= inner);
    assert(tail[0] == open as u8);
    match t {
        Tree::Leaf { pane_id, .. } => {
            lemma_read_numeral(pane_id as nat, 0xffff_ffff, rest);
        },
        Tree::HSplit { children, .. } => {
            lemma_read_children_text(children, 125, rest);
            assert(inner =~= bytes(children_text(children)) + (seq![125u8] + rest));
        },
        Tree::VSplit { children, .. } => {
            lemma_read_children_text(children, 93, rest);
            assert(inner =~= bytes(children_text(children)) + (seq![93u8] + rest));
        },
    }
}

proof fn lemma_read_children_text(ts: Seq<Tree>, close: u8, rest: Seq<u8>)
    requires
        ts.len() > 0,
        all_filled(ts),
        close == 125 || close == 93,
    ensures
        read_children(bytes(children_text(ts)) + (seq![close] + rest), close) == Some((ts, rest)),
    decreases ts, 1int,
{
    let b = bytes(children_text(ts)) + (seq![close] + rest);
    if ts.len() == 1 {
        lemma_read_node_text(ts[0], seq![close] + rest);
        lemma_read_node_shortens(b);
        assert((seq![close] + rest).skip(1) =~= rest);
        assert(seq![ts[0]] =~= ts);
    } else {
        let more = ts.skip(1);
        let inner = bytes(children_text(more)) + (seq![close] + rest);
        lemma_children_text_front(ts);
        lemma_bytes_join(node_text(ts[0]), ',', children_text(more), seq![close] + rest);
        assert(b == bytes(node_text(ts[0])) + (seq![44u8] + inner));
        lemma_read_node_text(ts[0], seq![44u8] + inner);
        lemma_read_node_shortens(b);
        assert((seq![44u8] + inner).skip(1) =~= inner);
        assert(more == ts.subrange(1, ts.len() as int));
        assert(all_filled(more)) by {
            assert forall|i: int| 0 <= i < more.len() implies filled(#[trigger] more[i]) by {
                assert(more[i] == ts[i + 1]);
            }
        }
        lemma_read_children_text(more, close, rest);
        assert(seq![ts[0]] + more =~= ts);
    }
}

proof fn lemma_numeral_ascii(n: nat)
    ensures
        vstd::utf8::is_ascii_chars(text::numeral(n)),
{
    text::lemma_numeral(n);
    assert forall|i: int| 0 <= i < text::numeral(n).len() implies '\0' <= #[trigger] text::numeral(n)[i]
        <= '\u{7f}' by {
        assert(text::is_digit(text::numeral(n)[i]));
    }
}

/// Layout text is ASCII.
pub proof fn lemma_node_text_ascii(t: Tree)
    ensures
        vstd::utf8::is_ascii_chars(node_text(t)),
    decreases t, 0int,
{
    match t {
        Tree::Leaf { rect, pane_id } => {
            lemma_rect_ascii(rect);
            lemma_numeral_ascii(pane_id as nat);
        },
        Tree::HSplit { rect, children } => {
            lemma_rect_ascii(rect);
            lemma_children_text_ascii(children);
        },
        Tree::VSplit { rect, children } => {
            lemma_rect_ascii(rect);
            lemma_children_text_ascii(children);
        },
    }
}

proof fn lemma_rect_ascii(r: Rect)
    ensures
        vstd::utf8::is_ascii_chars(rect_text(r)),
{
    lemma_numeral_ascii(r.w as nat);
    lemma_numeral_ascii(r.h as nat);
    lemma_numeral_ascii(r.x as nat);
    lemma_numeral_ascii(r.y as nat);
}

proof fn lemma_children_text_ascii(ts: Seq<Tree>)
    ensures
        vstd::utf8::is_ascii_chars(children_text(ts)),
    decreases ts, 1int,
{
    if ts.len() == 1 {
        lemma_node_text_ascii(ts[0]);
    } else if ts.len() > 1 {
        lemma_children_text_ascii(ts.drop_last());
        lemma_node_text_ascii(ts.last());
    }
}

/// What `serialize_layout` writes, `parse_layout` reads back as the same tree.
pub proof fn law_written_layouts_are_read_back(t: Tree)
    requires
        filled(t),
    ensures
        read_layout(vstd::utf8::encode_utf8(layout_text(t))) == Some(t),
{
    let s = layout_text(t);
    let sum = checksum(vstd::utf8::encode_utf8(node_text(t)));
    lemma_node_text_ascii(t);
    assert(vstd::utf8::is_ascii_chars(hex4(sum)));
    assert(vstd::utf8::is_ascii_chars(s));
    vstd::utf8::is_ascii_chars_encode_utf8(s);
    let b = vstd::utf8::encode_utf8(s);
    assert(b =~= bytes(s));
    assert(s[4] == ',');
    assert(b.skip(5) =~= bytes(node_text(t)) + Seq::<u8>::empty());
    lemma_read_node_text(t, Seq::<u8>::empty());
}

/// `parse_layout` gives no tree with an empty split.
pub proof fn law_read_trees_are_filled(b: Seq<u8>)
    ensures
        read_layout(b) matches Some(t) ==> filled(t),
{
    if b.len() >= 5 {
        lemma_read_node_filled(b.skip(5));
    }
}

proof fn lemma_read_node_filled(b: Seq<u8>)
    ensures
        read_node(b) matches Some((t, r)) ==> filled(t),
    decreases b.len(), 0int,
{
    lemma_read_rect_shortens(b);
    if let Some((rect, r)) = read_rect(b) {
        if r.len() > 0 {
            lemma_read_children_filled(r.skip(1), 125);
            lemma_read_children_filled(r.skip(1), 93);
        }
    }
}

proof fn lemma_read_children_filled(b: Seq<u8>, close: u8)
    ensures
        read_children(b, close) matches Some((ts, r)) ==> ts.len() > 0 && all_filled(ts),
    decreases b.len(), 1int,
{
    lemma_read_node_filled(b);
    if let Some((t, r)) = read_node(b) {
        if r.len() > 0 && r.len() < b.len() {
            lemma_read_children_filled(r.skip(1), close);
        }
    }
}

/// Writing a tree that was read and reading it again changes nothing, whatever checksum and
/// leading zeros the first string had.
pub proof fn law_reading_is_stable(b: Seq<u8>)
    ensures
        read_layout(b) matches Some(t) ==> read_layout(vstd::utf8::encode_utf8(layout_text(t))) == Some(t),
{
    law_read_trees_are_filled(b);
    if let Some(t) = read_layout(b) {
        law_written_layouts_are_read_back(t);
    }
}

// ── Scaling ─────────────────────────────────────────────────────

/// The direction along which a layout is scaled.
#[derive(Debug, Clone, Copy, PartialEq, Eq, Structural)]
pub enum Axis {
    Horizontal,
    Vertical,
}

/// The direction in which a sidebar at `position` takes room.
pub open spec fn axis_of(position: SidebarPosition) -> Axis {
    match position {
        SidebarPosition::Left => Axis::Horizontal,
        SidebarPosition::Top => Axis::Vertical,
    }
}

/// Whether `t` is a split along `axis`.
pub open spec fn splits_along(t: Tree, axis: Axis) -> bool {
    match axis {
        Axis::Horizontal => t is HSplit,
        Axis::Vertical => t is VSplit,
    }
}

impl Axis {
    pub fn for_position(position: SidebarPosition) -> (r: Self)
        ensures
            r == axis_of(position),
    {
        match position {
            SidebarPosition::Left => Axis::Horizontal,
            SidebarPosition::Top => Axis::Vertical,
        }
    }

    pub fn root_matches(self, node: &LayoutNode) -> (r: bool)
        ensures
            r == splits_along(node@, self),
    {
        match (self, node) {
            (Axis::Horizontal, LayoutNode::HSplit { .. }) => true,
            (Axis::Vertical, LayoutNode::VSplit { .. }) => true,
            _ => false,
        }
    }
}

/// The length of `r` along `axis`.
pub open spec fn extent(r: Rect, axis: Axis) -> u16 {
    match axis {
        Axis::Horizontal => r.w,
        Axis::Vertical => r.h,
    }
}

/// The position of `r` along `axis`.
pub open spec fn position(r: Rect, axis: Axis) -> u16 {
    match axis {
        Axis::Horizontal => r.x,
        Axis::Vertical => r.y,
    }
}

/// `r` with another length and position along `axis`.
pub open spec fn moved(r: Rect, axis: Axis, len: u16, pos: u16) -> Rect {
    match axis {
        Axis::Horizontal => Rect { w: len, x: pos, ..r },
        Axis::Vertical => Rect { h: len, y: pos, ..r },
    }
}

/// The rectangle of a node.
pub open spec fn rect_of(t: Tree) -> Rect {
    match t {
        Tree::Leaf { rect, .. } => rect,
        Tree::HSplit { rect, .. } => rect,
        Tree::VSplit { rect, .. } => rect,
    }
}

impl LayoutNode {
    pub fn rect(&self) -> (r: &Rect)
        ensures
            *r == rect_of(self@),
    {
        match self {
            LayoutNode::Leaf { rect, .. } => rect,
            LayoutNode::HSplit { rect, .. } => rect,
            LayoutNode::VSplit { rect, .. } => rect,
        }
    }

    pub fn width(&self) -> (r: u16)
        ensures
            r == rect_of(self@).w,
    {
        self.rect().w
    }

    pub fn height(&self) -> (r: u16)
        ensures
            r == rect_of(self@).h,
    {
        self.rect().h
    }
}

pub fn rect_extent(rect: &Rect, axis: Axis) -> (r: u16)
    ensures
        r == extent(*rect, axis),
{
    match axis {
        Axis::Horizontal => rect.w,
        Axis::Vertical => rect.h,
    }
}

pub fn rect_pos(rect: &Rect, axis: Axis) -> (r: u16)
    ensures
        r == position(*rect, axis),
{
    match axis {
        Axis::Horizontal => rect.x,
        Axis::Vertical => rect.y,
    }
}

pub fn node_extent(node: &LayoutNode, axis: Axis) -> (r: u16)
    ensures
        r == extent(rect_of(node@), axis),
{
    rect_extent(node.rect(), axis)
}

/// The sum of `lens`.
pub open spec fn total(lens: Seq<u16>) -> nat
    decreases lens.len(),
{
    if lens.len() == 0 {
        0
    } else {
        total(lens.drop_last()) + lens.last() as nat
    }
}

/// `old * available / all`, rounded to the nearest integer, halves up.
pub open spec fn rounded_share(old: nat, available: nat, all: nat) -> nat {
    (2 * old * available + all) / (2 * all)
}

/// The first `k` shares: each its rounded share, as far as something is left.
pub open spec fn first_shares(old: Seq<u16>, available: u16, k: nat) -> Seq<u16>
    decreases k,
{
    if k == 0 {
        seq![]
    } else {
        let before = first_shares(old, available, (k - 1) as nat);
        let left = available - total(before);
        let share = rounded_share(old[k - 1] as nat, available as nat, total(old));
        before.push(
            (if share <= left {
                share as int
            } else {
                left
            }) as u16,
        )
    }
}

/// `available` dealt out in proportion to `old`; the last one gets what is left.
pub open spec fn shares(old: Seq<u16>, available: u16) -> Seq<u16> {
    if total(old) == 0 {
        Seq::new(old.len(), |i: int| 0u16)
    } else {
        let before = first_shares(old, available, (old.len() - 1) as nat);
        before.push((available - total(before)) as u16)
    }
}

pub proof fn lemma_first_shares(old: Seq<u16>, available: u16, k: nat)
    ensures
        first_shares(old, available, k).len() == k,
        total(first_shares(old, available, k)) <= available,
    decreases k,
{
    if k > 0 {
        lemma_first_shares(old, available, (k - 1) as nat);
        let s = first_shares(old, available, k);
        assert(s.drop_last() =~= first_shares(old, available, (k - 1) as nat));
    }
}

/// The shares fill `available` exactly, unless there is nothing to go by.
pub proof fn law_shares_fill(old: Seq<u16>, available: u16)
    requires
        total(old) > 0,
    ensures
        shares(old, available).len() == old.len(),
        total(shares(old, available)) == available,
{
    assert(old.len() > 0);
    let before = first_shares(old, available, (old.len() - 1) as nat);
    lemma_first_shares(old, available, (old.len() - 1) as nat);
    assert(shares(old, available).drop_last() =~= before);
}

/// Shares that fill `available` are kept as they are.
pub proof fn law_shares_are_settled(old: Seq<u16>, available: u16)
    ensures
        shares(shares(old, available), available) == shares(old, available),
{
    let lens = shares(old, available);
    if total(old) == 0 {
        lemma_total_zeros(lens);
    } else {
        law_shares_fill(old, available);
        if available == 0 {
            lemma_zero_total(lens);
            assert(shares(lens, available) =~= lens);
        } else {
            assert(lens.len() > 0);
            let k = (lens.len() - 1) as nat;
            lemma_settled_shares(lens, available, k);
            lemma_total_front(lens, k as int);
            assert(lens.take(lens.len() as int) =~= lens);
            assert(lens.take(k as int) =~= lens.drop_last());
            assert(lens =~= lens.drop_last().push(lens.last()));
        }
    }
}

proof fn lemma_total_zeros(lens: Seq<u16>)
    requires
        forall|i: int| 0 <= i < lens.len() ==> #[trigger] lens[i] == 0,
    ensures
        total(lens) == 0,
    decreases lens.len(),
{
    if lens.len() > 0 {
        lemma_total_zeros(lens.drop_last());
    }
}

proof fn lemma_zero_total(lens: Seq<u16>)
    requires
        total(lens) == 0,
    ensures
        forall|i: int| 0 <= i < lens.len() ==> #[trigger] lens[i] == 0,
    decreases lens.len(),
{
    if lens.len() > 0 {
        lemma_zero_total(lens.drop_last());
        assert forall|i: int| 0 <= i < lens.len() implies #[trigger] lens[i] == 0 by {
            if i < lens.len() - 1 {
                assert(lens.drop_last()[i] == lens[i]);
            }
        }
    }
}

proof fn lemma_total_front(lens: Seq<u16>, k: int)
    requires
        0 <= k <= lens.len(),
    ensures
        total(lens.take(k)) <= total(lens),
        k < lens.len() ==> total(lens.take(k)) + lens[k] == total(lens.take(k + 1)) <= total(lens),
    decreases lens.len() - k,
{
    if k < lens.len() {
        assert(lens.take(k + 1).drop_last() =~= lens.take(k));
        lemma_total_front(lens, k + 1);
    } else {
        assert(lens.take(k) =~= lens);
    }
}

proof fn lemma_settled_shares(lens: Seq<u16>, available: u16, k: nat)
    requires
        available > 0,
        total(lens) == available,
        k <= lens.len(),
    ensures
        first_shares(lens, available, k) == lens.take(k as int),
    decreases k,
{
    if k > 0 {
        let i = k - 1;
        lemma_settled_shares(lens, available, i as nat);
        lemma_total_front(lens, i);
        let (a, x) = (available as int, lens[i] as int);
        assert((2 * x * a + a) / (2 * a) == x) by (nonlinear_arith)
            requires
                a > 0,
                x >= 0,
        ;
        assert(rounded_share(lens[i] as nat, available as nat, available as nat) == lens[i]);
        assert(lens.take(k as int) =~= lens.take(i).push(lens[i]));
    } else {
        assert(lens.take(0) =~= seq![]);
    }
}

proof fn lemma_total_bound(lens: Seq<u16>)
    ensures
        total(lens) <= 0xffff * lens.len(),
    decreases lens.len(),
{
    if lens.len() > 0 {
        lemma_total_bound(lens.drop_last());
    }
}

/// Deals out `available` among items in proportion to their old lengths.
/// The last item gets the remainder, so that rounding leaves no gap.
pub fn proportional_lengths(old_lengths: &Vec<u16>, available: u16) -> (r: Vec<u16>)
    ensures
        r@ == shares(old_lengths@, available),
{
    let n: usize = old_lengths.len();
    let ghost old = old_lengths@;
    let mut all: u128 = 0;
    let mut i: usize = 0;
    while i < n
        invariant
            n == old.len(),
            old == old_lengths@,
            0 <= i <= n,
            all == total(old.take(i as int)),
            all <= 0xffff * i,
        decreases n - i,
    {
        proof {
            assert(old.take(i + 1).drop_last() =~= old.take(i as int));
        }
        all = all + old_lengths[i] as u128;
        i += 1;
    }
    proof {
        assert(old.take(n as int) =~= old);
    }
    let mut out: Vec<u16> = Vec::new();
    if all == 0 {
        let mut j: usize = 0;
        while j < n
            invariant
                0 <= j <= n,
                out@ =~= Seq::new(j as nat, |k: int| 0u16),
            decreases n - j,
        {
            out.push(0);
            j += 1;
        }
        proof {
            assert(out@ =~= shares(old, available));
        }
        return out;
    }
    proof {
        assert(n > 0);
    }
    let mut remaining: u16 = available;
    let mut j: usize = 0;
    while j < n - 1
        invariant
            0 < n == old.len(),
            old == old_lengths@,
            0 <= j <= n - 1,
            all == total(old),
            0 < all <= 0xffff * n,
            out@ == first_shares(old, available, j as nat),
            remaining == available - total(out@),
        decreases n - 1 - j,
    {
        proof {
            lemma_first_shares(old, available, j as nat);
            lemma_first_shares(old, available, (j + 1) as nat);
        }
        let len: u128 = old_lengths[j] as u128;
        let avail: u128 = available as u128;
        proof {
            let l = len as int;
            let a = avail as int;
            assert(2 * l * a <= 2 * 0xffff * 0xffff) by (nonlinear_arith)
                requires
                    0 <= l <= 0xffff,
                    0 <= a <= 0xffff,
            ;
            assert(0 <= 2 * l * a) by (nonlinear_arith)
                requires
                    0 <= l <= 0xffff,
                    0 <= a <= 0xffff,
            ;
            assert(2 * l <= 2 * 0xffff);
        }
        let share: u128 = (2 * len * avail + all) / (2 * all);
        let scaled: u16 = if share <= remaining as u128 {
            share as u16
        } else {
            remaining
        };
        proof {
            assert(share == rounded_share(old[j as int] as nat, available as nat, total(old)));
            assert(first_shares(old, available, (j + 1) as nat).drop_last() =~= out@);
        }
        out.push(scaled);
        remaining = remaining - scaled;
        j += 1;
    }
    out.push(remaining);
    out
}

/// The lengths of nodes along `axis`.
pub open spec fn extents(ts: Seq<Tree>, axis: Axis) -> Seq<u16> {
    Seq::new(ts.len(), |i: int| extent(rect_of(ts[i]), axis))
}

/// The separators between `n` siblings, one cell each.
pub open spec fn separators(n: nat) -> u16 {
    if n == 0 {
        0
    } else {
        ((n - 1) % 0x10000) as u16
    }
}

/// The greater of `a - b` and zero.
pub open spec fn less(a: u16, b: u16) -> u16 {
    if a > b {
        (a - b) as u16
    } else {
        0
    }
}

/// Where sibling `i` begins, when the first begins at `pos`; no more than a cell index can hold.
pub open spec fn begins(lens: Seq<u16>, pos: u16, i: int) -> u16 {
    let at = pos + total(lens.take(i)) + i;
    if at <= 0xffff {
        at as u16
    } else {
        0xffff
    }
}

/// `t` with length `len` at `pos` along `axis`, its children in proportion.
pub open spec fn scaled(t: Tree, axis: Axis, len: u16, pos: u16) -> Tree
    decreases t,
{
    match t {
        Tree::Leaf { rect, pane_id } => Tree::Leaf { rect: moved(rect, axis, len, pos), pane_id },
        Tree::HSplit { rect, children } => Tree::HSplit {
            rect: moved(rect, axis, len, pos),
            children: scaled_children(children, axis, axis == Axis::Horizontal, len, pos),
        },
        Tree::VSplit { rect, children } => Tree::VSplit {
            rect: moved(rect, axis, len, pos),
            children: scaled_children(children, axis, axis == Axis::Vertical, len, pos),
        },
    }
}

/// The children of a split that takes length `len` at `pos`: one after the other where the split
/// runs `along` the axis, all alike where it runs across.
pub open spec fn scaled_children(ts: Seq<Tree>, axis: Axis, along: bool, len: u16, pos: u16) -> Seq<Tree>
    decreases ts,
{
    let lens = shares(extents(ts, axis), less(len, separators(ts.len())));
    Seq::new(
        ts.len(),
        |i: int|
            if 0 <= i < ts.len() {
                if along {
                    scaled(ts[i], axis, lens[i], begins(lens, pos, i))
                } else {
                    scaled(ts[i], axis, len, pos)
                }
            } else {
                arbitrary()
            },
    )
}

fn move_rect(rect: &mut Rect, axis: Axis, len: u16, pos: u16)
    ensures
        *final(rect) == moved(*old(rect), axis, len, pos),
{
    match axis {
        Axis::Horizontal => {
            rect.w = len;
            rect.x = pos;
        },
        Axis::Vertical => {
            rect.h = len;
            rect.y = pos;
        },
    }
}

/// Scales a subtree along one axis, keeping its inner proportions.
pub fn scale_axis(node: &mut LayoutNode, axis: Axis, new_len: u16, new_pos: u16)
    ensures
        final(node)@ == scaled(old(node)@, axis, new_len, new_pos),
    decreases *old(node), 1int,
{
    match node {
        LayoutNode::Leaf { rect, .. } => {
            move_rect(rect, axis, new_len, new_pos);
        },
        LayoutNode::HSplit { rect, children } => {
            move_rect(rect, axis, new_len, new_pos);
            scale_children(children, axis, matches!(axis, Axis::Horizontal), new_len, new_pos);
        },
        LayoutNode::VSplit { rect, children } => {
            move_rect(rect, axis, new_len, new_pos);
            scale_children(children, axis, matches!(axis, Axis::Vertical), new_len, new_pos);
        },
    }
}

fn node_extents(nodes: &Vec<LayoutNode>, axis: Axis) -> (r: Vec<u16>)
    ensures
        r@ == extents(forest(nodes@), axis),
{
    let mut r: Vec<u16> = Vec::new();
    let mut i: usize = 0;
    while i < nodes.len()
        invariant
            0 <= i <= nodes.len(),
            r@ =~= extents(forest(nodes@), axis).take(i as int),
        decreases nodes.len() - i,
    {
        r.push(node_extent(&nodes[i], axis));
        i += 1;
    }
    r
}

proof fn lemma_begins_next(lens: Seq<u16>, pos: u16, i: int)
    requires
        0 <= i < lens.len(),
    ensures
        begins(lens, pos, i + 1) == (if begins(lens, pos, i) + lens[i] + 1 <= 0xffff {
            begins(lens, pos, i) + lens[i] + 1
        } else {
            0xffff
        }),
{
    assert(lens.take(i + 1).drop_last() =~= lens.take(i));
}

fn scale_children(children: &mut Vec<LayoutNode>, axis: Axis, along: bool, new_len: u16, new_pos: u16)
    ensures
        forest(final(children)@) == scaled_children(forest(old(children)@), axis, along, new_len, new_pos),
    decreases *old(children), 0int,
{
    let n: usize = children.len();
    let ghost before = children@;
    let ghost ts = forest(before);
    let seps: u16 = if n == 0 {
        0
    } else {
        ((n - 1) % 0x10000) as u16
    };
    let old_lengths: Vec<u16> = node_extents(children, axis);
    let lens: Vec<u16> = proportional_lengths(&old_lengths, new_len.saturating_sub(seps));
    proof {
        lemma_shares_len(extents(ts, axis), less(new_len, seps));
        assert(lens@.take(0).len() == 0);
        assert(total(lens@.take(0)) == 0);
    }
    let mut pos: u16 = new_pos;
    let mut i: usize = 0;
    while i < n
        invariant
            n == before.len() == children@.len() == lens@.len(),
            before == old(children)@,
            ts == forest(before),
            lens@ == shares(extents(ts, axis), less(new_len, separators(ts.len()))),
            0 <= i <= n,
            pos == begins(lens@, new_pos, i as int),
            forall|j: int|
                0 <= j < i ==> (#[trigger] children@[j])@ == scaled_children(ts, axis, along, new_len, new_pos)[j],
            forall|j: int| i <= j < n ==> #[trigger] children@[j] == before[j],
        decreases n - i,
    {
        let len: u16 = lens[i];
        proof {
            assert(ts[i as int] == before[i as int]@);
            lemma_begins_next(lens@, new_pos, i as int);
        }
        if along {
            scale_axis(&mut children[i], axis, len, pos);
        } else {
            scale_axis(&mut children[i], axis, new_len, new_pos);
        }
        pos = pos.saturating_add(len).saturating_add(1);
        i += 1;
    }
    proof {
        assert(forest(children@) =~= scaled_children(ts, axis, along, new_len, new_pos));
    }
}

proof fn lemma_shares_len(old: Seq<u16>, available: u16)
    ensures
        shares(old, available).len() == old.len(),
{
    if total(old) > 0 {
        law_shares_fill(old, available);
    }
}

// ── Panes ───────────────────────────────────────────────────────

/// The panes of a tree, in layout order.
pub open spec fn panes(t: Tree) -> Seq<u32>
    decreases t,
{
    match t {
        Tree::Leaf { pane_id, .. } => seq![pane_id],
        Tree::HSplit { children, .. } => all_panes(children),
        Tree::VSplit { children, .. } => all_panes(children),
    }
}

/// The panes of siblings, in layout order.
pub open spec fn all_panes(ts: Seq<Tree>) -> Seq<u32>
    decreases ts,
{
    if ts.len() == 0 {
        seq![]
    } else {
        all_panes(ts.drop_last()) + panes(ts.last())
    }
}

/// Scaling keeps every pane in its place.
pub proof fn law_scaling_keeps_panes(t: Tree, axis: Axis, len: u16, pos: u16)
    ensures
        panes(scaled(t, axis, len, pos)) == panes(t),
    decreases t, 0int,
{
    match t {
        Tree::Leaf { .. } => {},
        Tree::HSplit { children, .. } => {
            lemma_scaling_children_keeps_panes(children, axis, axis == Axis::Horizontal, len, pos, children.len());
            let cs = scaled_children(children, axis, axis == Axis::Horizontal, len, pos);
            assert(cs.take(children.len() as int) =~= cs);
            assert(children.take(children.len() as int) =~= children);
        },
        Tree::VSplit { children, .. } => {
            lemma_scaling_children_keeps_panes(children, axis, axis == Axis::Vertical, len, pos, children.len());
            let cs = scaled_children(children, axis, axis == Axis::Vertical, len, pos);
            assert(cs.take(children.len() as int) =~= cs);
            assert(children.take(children.len() as int) =~= children);
        },
    }
}

proof fn lemma_scaling_children_keeps_panes(ts: Seq<Tree>, axis: Axis, along: bool, len: u16, pos: u16, k: nat)
    requires
        k <= ts.len(),
    ensures
        all_panes(scaled_children(ts, axis, along, len, pos).take(k as int)) == all_panes(ts.take(k as int)),
    decreases ts, k,
{
    let cs = scaled_children(ts, axis, along, len, pos);
    if k > 0 {
        lemma_scaling_children_keeps_panes(ts, axis, along, len, pos, (k - 1) as nat);
        assert(cs.take(k as int).drop_last() =~= cs.take(k - 1));
        assert(ts.take(k as int).drop_last() =~= ts.take(k - 1));
        let lens = shares(extents(ts, axis), less(len, separators(ts.len())));
        if along {
            law_scaling_keeps_panes(ts[k - 1], axis, lens[k - 1], begins(lens, pos, k - 1));
        } else {
            law_scaling_keeps_panes(ts[k - 1], axis, len, pos);
        }
    }
}

/// Scaling sets the length and position of the root along the axis and keeps the other axis.
pub proof fn law_scaling_sets_one_axis(t: Tree, axis: Axis, len: u16, pos: u16)
    ensures
        rect_of(scaled(t, axis, len, pos)) == moved(rect_of(t), axis, len, pos),
{
}

/// The children of a scaled split along the axis fill it: their lengths and the separators
/// between them add up to its length.
pub proof fn law_scaled_children_fill(ts: Seq<Tree>, axis: Axis, len: u16, pos: u16)
    requires
        total(extents(ts, axis)) > 0,
        ts.len() <= 0x10000,
        ts.len() - 1 <= len,
    ensures
        total(extents(scaled_children(ts, axis, true, len, pos), axis)) + ts.len() - 1 == len,
{
    let available = less(len, separators(ts.len()));
    let lens = shares(extents(ts, axis), available);
    law_shares_fill(extents(ts, axis), available);
    assert(extents(scaled_children(ts, axis, true, len, pos), axis) =~= lens);
    assert(ts.len() > 0);
}

// ── Sidebar removal ─────────────────────────────────────────────

/// `t` without the pane `target`; a split left with one child gives way to it, and one left with
/// none goes.
pub open spec fn pruned(t: Tree, target: u32) -> Option<Tree>
    decreases t,
{
    match t {
        Tree::Leaf { pane_id, .. } => if pane_id == target {
            None
        } else {
            Some(t)
        },
        Tree::HSplit { rect, children } => {
            let kept = all_pruned(children, target);
            if kept.len() == 0 {
                None
            } else if kept.len() == 1 {
                Some(kept[0])
            } else {
                Some(Tree::HSplit { rect, children: kept })
            }
        },
        Tree::VSplit { rect, children } => {
            let kept = all_pruned(children, target);
            if kept.len() == 0 {
                None
            } else if kept.len() == 1 {
                Some(kept[0])
            } else {
                Some(Tree::VSplit { rect, children: kept })
            }
        },
    }
}

/// What is left of siblings without the pane `target`.
pub open spec fn all_pruned(ts: Seq<Tree>, target: u32) -> Seq<Tree>
    decreases ts,
{
    if ts.len() == 0 {
        seq![]
    } else {
        match pruned(ts.last(), target) {
            Some(t) => all_pruned(ts.drop_last(), target).push(t),
            None => all_pruned(ts.drop_last(), target),
        }
    }
}

fn prune_children(children: Vec<LayoutNode>, target: u32) -> (r: Vec<LayoutNode>)
    ensures
        forest(r@) == all_pruned(forest(children@), target),
    decreases children, 0int,
{
    let ghost before = children@;
    let ghost ts = forest(before);
    let mut rest = children;
    let mut kept: Vec<LayoutNode> = Vec::new();
    let ghost mut k: int = 0;
    proof {
        assert(before.skip(0) =~= before);
        assert(forest(kept@) =~= all_pruned(ts.take(0), target));
    }
    while rest.len() > 0
        invariant
            before == children@,
            ts == forest(before),
            0 <= k <= before.len(),
            rest@ == before.skip(k),
            forest(kept@) == all_pruned(ts.take(k), target),
        decreases rest.len(),
    {
        let child = rest.remove(0);
        proof {
            assert(child == before[k]);
            assert(child@ == ts[k]);
            assert(rest@ =~= before.skip(k + 1));
            assert(ts.take(k + 1).drop_last() =~= ts.take(k));
            assert(ts.take(k + 1).last() == ts[k]);
        }
        let ghost kept0 = kept@;
        match prune_pane(child, target) {
            Some(node) => {
                kept.push(node);
                proof {
                    assert(forest(kept@) =~= forest(kept0).push(node@));
                }
            },
            None => {},
        }
        proof {
            k = k + 1;
        }
    }
    proof {
        assert(ts.take(k) =~= ts);
    }
    kept
}

/// Removes a pane from a tree by its number. A split left with a single child gives way to it.
pub fn prune_pane(node: LayoutNode, target: u32) -> (r: Option<LayoutNode>)
    ensures
        match r {
            Some(n) => pruned(node@, target) == Some(n@),
            None => pruned(node@, target) is None,
        },
    decreases node, 1int,
{
    match node {
        LayoutNode::Leaf { rect, pane_id } => if pane_id == target {
            None
        } else {
            Some(LayoutNode::Leaf { rect, pane_id })
        },
        LayoutNode::HSplit { rect, children } => {
            let mut kept = prune_children(children, target);
            if kept.len() == 0 {
                None
            } else if kept.len() == 1 {
                Some(kept.remove(0))
            } else {
                Some(LayoutNode::HSplit { rect, children: kept })
            }
        },
        LayoutNode::VSplit { rect, children } => {
            let mut kept = prune_children(children, target);
            if kept.len() == 0 {
                None
            } else if kept.len() == 1 {
                Some(kept.remove(0))
            } else {
                Some(LayoutNode::VSplit { rect, children: kept })
            }
        },
    }
}

/// Pruning takes away the target pane wherever it stands and keeps all others in order.
pub proof fn law_pruning_takes_the_target_alone(t: Tree, target: u32)
    ensures
        match pruned(t, target) {
            Some(p) => panes(p) == panes(t).filter(|p: u32| p != target),
            None => panes(t).filter(|p: u32| p != target) == Seq::<u32>::empty(),
        },
    decreases t, 0int,
{
    reveal(Seq::filter);
    match t {
        Tree::Leaf { pane_id, .. } => {
            let s = seq![pane_id];
            assert(s.drop_last() =~= Seq::<u32>::empty());
            let f = |p: u32| p != target;
            assert(s.drop_last().filter(f) =~= Seq::<u32>::empty());
            assert(s.filter(f) =~= (if pane_id != target {
                s
            } else {
                Seq::<u32>::empty()
            }));
        },
        Tree::HSplit { children, .. } => lemma_pruning_children(children, target),
        Tree::VSplit { children, .. } => lemma_pruning_children(children, target),
    }
}

proof fn lemma_pruning_children(ts: Seq<Tree>, target: u32)
    ensures
        all_panes(all_pruned(ts, target)) == all_panes(ts).filter(|p: u32| p != target),
        all_pruned(ts, target).len() == 0 ==> all_panes(ts).filter(|p: u32| p != target) == Seq::<u32>::empty(),
        all_pruned(ts, target).len() == 1 ==> panes(all_pruned(ts, target)[0]) == all_panes(ts).filter(
            |p: u32| p != target,
        ),
    decreases ts, 1int,
{
    reveal(Seq::filter);
    let f = |p: u32| p != target;
    let kept = all_pruned(ts, target);
    if ts.len() == 0 {
        assert(all_panes(ts).filter(f) =~= Seq::<u32>::empty());
    } else {
        lemma_pruning_children(ts.drop_last(), target);
        law_pruning_takes_the_target_alone(ts.last(), target);
        Seq::<u32>::filter_distributes_over_add(all_panes(ts.drop_last()), panes(ts.last()), f);
        let front = all_pruned(ts.drop_last(), target);
        match pruned(ts.last(), target) {
            Some(t) => {
                assert(kept.drop_last() =~= front);
                assert(kept.last() == t);
            },
            None => {
                assert(all_panes(front) + Seq::<u32>::empty() =~= all_panes(front));
            },
        }
    }
    if kept.len() == 1 {
        assert(kept.drop_last() =~= Seq::<Tree>::empty());
        assert(all_panes(Seq::<Tree>::empty()) + panes(kept[0]) =~= panes(kept[0]));
    }
}

// ── Whole windows ───────────────────────────────────────────────

/// The rows or columns that a sidebar of `content_size` takes in the layout: one more where a
/// status line stands on top of each pane.
pub open spec fn sidebar_size(at: SidebarPosition, content_size: u16, pane_border_status: Seq<char>) -> u16 {
    if at == SidebarPosition::Top && pane_border_status == "top"@ && content_size < 0xffff {
        (content_size + 1) as u16
    } else {
        content_size
    }
}

pub fn sidebar_layout_size_for_status(position: SidebarPosition, content_size: u16, pane_border_status: &str) -> (r: u16)
    ensures
        r == sidebar_size(position, content_size, pane_border_status@),
{
    if matches!(position, SidebarPosition::Top) && text::same(pane_border_status, "top") {
        content_size.saturating_add(1)
    } else {
        content_size
    }
}

/// The children of a split, none for a leaf.
pub open spec fn children_of(t: Tree) -> Seq<Tree> {
    match t {
        Tree::Leaf { .. } => seq![],
        Tree::HSplit { children, .. } => children,
        Tree::VSplit { children, .. } => children,
    }
}

pub open spec fn is_pane(t: Tree, pane: u32) -> bool {
    t matches Tree::Leaf { pane_id, .. } && pane_id == pane
}

/// The index of the first sibling that is the pane `pane`, or the number of siblings.
pub open spec fn pane_index(ts: Seq<Tree>, pane: u32) -> nat
    decreases ts.len(),
{
    if ts.len() == 0 || is_pane(ts[0], pane) {
        0
    } else {
        1 + pane_index(ts.skip(1), pane)
    }
}

/// The children of a root split of length `len` at `pos`, with the sidebar, child `at`, at the
/// front and the others sharing in proportion the `available` length behind it.
pub open spec fn reflowed_children(ts: Seq<Tree>, axis: Axis, at: int, size: u16, available: u16, pos: u16) -> Seq<
    Tree,
> {
    let lens = shares(extents(ts.remove(at), axis), available);
    let start = if pos + size + 1 <= 0xffff {
        (pos + size + 1) as u16
    } else {
        0xffff
    };
    Seq::new(
        ts.len(),
        |j: int|
            if j == at {
                Tree::Leaf { rect: moved(rect_of(ts[j]), axis, size, pos), pane_id: ts[j]->Leaf_pane_id }
            } else {
                let k = if j < at {
                    j
                } else {
                    j - 1
                };
                scaled(ts[j], axis, lens[k], begins(lens, start, k))
            },
    )
}

/// What is left for the content of a root split with `n` children, behind the sidebar and the
/// separators.
pub open spec fn content_room(len: u16, size: u16, n: nat) -> u16 {
    less(less(len, size), less((n % 0x10000) as u16, 1))
}

/// The layout `t` with the sidebar pane `pane` at `size` and the content scaled into the rest.
/// There is none where the root does not split along the sidebar's axis, where the sidebar is not
/// among its children, or where nothing is left for the content.
pub open spec fn reflowed(t: Tree, axis: Axis, pane: u32, size: u16) -> Option<Tree> {
    let ts = children_of(t);
    let at = pane_index(ts, pane) as int;
    let rect = rect_of(t);
    let available = content_room(extent(rect, axis), size, ts.len());
    if !splits_along(t, axis) || at >= ts.len() || available == 0 {
        None
    } else {
        let children = reflowed_children(ts, axis, at, size, available, position(rect, axis));
        Some(
            match axis {
                Axis::Horizontal => Tree::HSplit { rect, children },
                Axis::Vertical => Tree::VSplit { rect, children },
            },
        )
    }
}

/// The number of the pane id `%N`.
pub open spec fn pane_number(pane_id: Seq<char>) -> Option<nat> {
    match text::without_prefix(pane_id, "%"@) {
        Some(digits) => text::unsigned(digits, 0xffff_ffff),
        None => None,
    }
}

fn parse_pane_number(pane_id: &str) -> (r: Option<u32>)
    ensures
        match r {
            Some(n) => pane_number(pane_id@) == Some(n as nat),
            None => pane_number(pane_id@) is None,
        },
{
    match text::strip_prefix(pane_id, "%") {
        Some(digits) => match text::parse_unsigned(digits, 0xffff_ffff) {
            Some(n) => Some(n as u32),
            None => None,
        },
        None => None,
    }
}

proof fn lemma_pane_index(ts: Seq<Tree>, pane: u32, k: int)
    requires
        0 <= k <= ts.len(),
        k < ts.len() ==> is_pane(ts[k], pane),
        forall|j: int| 0 <= j < k ==> !is_pane(#[trigger] ts[j], pane),
    ensures
        pane_index(ts, pane) == k,
    decreases ts.len(),
{
    if ts.len() > 0 && k > 0 {
        assert(!is_pane(ts[0], pane));
        let r = ts.skip(1);
        assert forall|j: int| 0 <= j < k - 1 implies !is_pane(#[trigger] r[j], pane) by {
            assert(r[j] == ts[j + 1]);
        }
        if k < ts.len() {
            assert(r[k - 1] == ts[k]);
        }
        lemma_pane_index(r, pane, k - 1);
    }
}

fn find_pane(nodes: &Vec<LayoutNode>, pane: u32) -> (r: usize)
    ensures
        r == pane_index(forest(nodes@), pane),
        r <= nodes.len(),
{
    let ghost ts = forest(nodes@);
    let mut i: usize = 0;
    while i < nodes.len()
        invariant
            ts == forest(nodes@),
            0 <= i <= nodes.len(),
            forall|j: int| 0 <= j < i ==> !is_pane(#[trigger] ts[j], pane),
        decreases nodes.len() - i,
    {
        let found = match &nodes[i] {
            LayoutNode::Leaf { pane_id, .. } => *pane_id == pane,
            _ => false,
        };
        proof {
            assert(ts[i as int] == nodes@[i as int]@);
            assert(found == is_pane(ts[i as int], pane));
        }
        if found {
            proof {
                lemma_pane_index(ts, pane, i as int);
            }
            return i;
        }
        i += 1;
    }
    proof {
        lemma_pane_index(ts, pane, i as int);
    }
    i
}

fn other_extents(nodes: &Vec<LayoutNode>, axis: Axis, at: usize) -> (r: Vec<u16>)
    requires
        at < nodes.len(),
    ensures
        r@ == extents(forest(nodes@).remove(at as int), axis),
{
    let ghost ts = forest(nodes@).remove(at as int);
    let mut r: Vec<u16> = Vec::new();
    let mut i: usize = 0;
    while i < nodes.len()
        invariant
            at < nodes.len(),
            ts == forest(nodes@).remove(at as int),
            0 <= i <= nodes.len(),
            r@ =~= extents(ts, axis).take(if i <= at {
                i as int
            } else {
                i - 1
            }),
        decreases nodes.len() - i,
    {
        if i != at {
            r.push(node_extent(&nodes[i], axis));
        }
        i += 1;
    }
    r
}

fn reflow_children(children: &mut Vec<LayoutNode>, axis: Axis, at: usize, size: u16, available: u16, pos: u16)
    requires
        at < old(children).len(),
        old(children)@[at as int] is Leaf,
    ensures
        forest(final(children)@) == reflowed_children(
            forest(old(children)@),
            axis,
            at as int,
            size,
            available,
            pos,
        ),
{
    let ghost before = children@;
    let ghost ts = forest(before);
    let n: usize = children.len();
    let old_lengths = other_extents(children, axis, at);
    let lens = proportional_lengths(&old_lengths, available);
    proof {
        lemma_shares_len(extents(ts.remove(at as int), axis), available);
        assert(lens@.take(0).len() == 0);
        assert(total(lens@.take(0)) == 0);
    }
    let start: u16 = pos.saturating_add(size).saturating_add(1);
    let mut cursor: u16 = start;
    let mut i: usize = 0;
    while i < n
        invariant
            n == before.len() == children@.len() == lens@.len() + 1,
            at < n,
            before == old(children)@,
            before[at as int] is Leaf,
            ts == forest(before),
            lens@ == shares(extents(ts.remove(at as int), axis), available),
            start == (if pos + size + 1 <= 0xffff {
                pos + size + 1
            } else {
                0xffff
            }),
            0 <= i <= n,
            cursor == begins(lens@, start, if i <= at {
                i as int
            } else {
                i - 1
            }),
            forall|j: int|
                0 <= j < i ==> (#[trigger] children@[j])@ == reflowed_children(
                    ts,
                    axis,
                    at as int,
                    size,
                    available,
                    pos,
                )[j],
            forall|j: int| i <= j < n ==> #[trigger] children@[j] == before[j],
        decreases n - i,
    {
        proof {
            assert(ts[i as int] == before[i as int]@);
        }
        if i == at {
            match &mut children[i] {
                LayoutNode::Leaf { rect, .. } => {
                    move_rect(rect, axis, size, pos);
                },
                _ => {},
            }
        } else {
            let k: usize = if i < at {
                i
            } else {
                i - 1
            };
            let len: u16 = lens[k];
            proof {
                lemma_begins_next(lens@, start, k as int);
            }
            scale_axis(&mut children[i], axis, len, cursor);
            cursor = cursor.saturating_add(len).saturating_add(1);
        }
        i += 1;
    }
    proof {
        assert(forest(children@) =~= reflowed_children(ts, axis, at as int, size, available, pos));
    }
}

/// Gives the sidebar its size and scales the content into what is left.
/// Returns false, and leaves the tree alone, where there is nothing to reflow.
pub fn reflow(root: &mut LayoutNode, axis: Axis, pane: u32, size: u16) -> (r: bool)
    ensures
        match reflowed(old(root)@, axis, pane, size) {
            Some(t) => r && final(root)@ == t,
            None => !r && *final(root) == *old(root),
        },
{
    if !axis.root_matches(root) {
        return false;
    }
    match root {
        LayoutNode::Leaf { .. } => false,
        LayoutNode::HSplit { rect, children } => reflow_split(rect, children, axis, pane, size),
        LayoutNode::VSplit { rect, children } => reflow_split(rect, children, axis, pane, size),
    }
}

fn reflow_split(rect: &Rect, children: &mut Vec<LayoutNode>, axis: Axis, pane: u32, size: u16) -> (r: bool)
    ensures
        ({
            let ts = forest(old(children)@);
            let at = pane_index(ts, pane) as int;
            let available = content_room(extent(*rect, axis), size, ts.len());
            if at < ts.len() && available > 0 {
                r && forest(final(children)@) == reflowed_children(
                    ts,
                    axis,
                    at,
                    size,
                    available,
                    position(*rect, axis),
                )
            } else {
                !r && *final(children) == *old(children)
            }
        }),
{
    let at = find_pane(children, pane);
    if at >= children.len() {
        return false;
    }
    let ghost ts = forest(children@);
    proof {
        lemma_pane_index_holds(ts, pane);
        assert(ts[at as int] == children@[at as int]@);
    }
    let separators: u16 = ((children.len() % 0x10000) as u16).saturating_sub(1);
    let available: u16 = rect_extent(rect, axis).saturating_sub(size).saturating_sub(separators);
    if available == 0 {
        return false;
    }
    reflow_children(children, axis, at, size, available, rect_pos(rect, axis));
    true
}

proof fn lemma_pane_index_holds(ts: Seq<Tree>, pane: u32)
    ensures
        pane_index(ts, pane) <= ts.len(),
        pane_index(ts, pane) < ts.len() ==> is_pane(ts[pane_index(ts, pane) as int], pane),
    decreases ts.len(),
{
    if ts.len() > 0 && !is_pane(ts[0], pane) {
        let r = ts.skip(1);
        lemma_pane_index_holds(r, pane);
        let k = pane_index(r, pane) as int;
        if k < r.len() {
            assert(r[k] == ts[k + 1]);
        }
    }
}

/// What tmux reported of a window: the pane border status and the layout, parted by a tab.
pub open spec fn reported(output: Seq<char>) -> (Seq<char>, Seq<char>) {
    let line = text::trimmed(output);
    match text::parted(line, '\t') {
        Some((status, layout)) => (status, layout),
        None => (seq![], line),
    }
}

/// The layout to apply after a sidebar was added, where it differs from the present one.
pub open spec fn layout_with_sidebar(
    output: Seq<char>,
    sidebar_pane_id: Seq<char>,
    at: SidebarPosition,
    content_size: u16,
) -> Option<Seq<char>> {
    let (status, layout) = reported(output);
    let size = sidebar_size(at, content_size, status);
    let pane = match pane_number(sidebar_pane_id) {
        Some(n) => n as u32,
        None => 0,
    };
    match read_layout(vstd::utf8::encode_utf8(layout)) {
        Some(t) => match reflowed(t, axis_of(at), pane, size) {
            Some(new) => if layout_text(new) == layout {
                None
            } else {
                Some(layout_text(new))
            },
            None => None,
        },
        None => None,
    }
}

/// Computes the layout to apply after a sidebar pane was added to a window.
///
/// Splitting takes room from one neighbour only and leaves the rest of the content lopsided. The
/// content is scaled to fill what is left beside the sidebar. `output` is what tmux reports of the
/// window: `pane-border-status`, a tab, and the layout.
pub fn reflow_after_sidebar_add(
    output: &str,
    sidebar_pane_id: &str,
    position: SidebarPosition,
    content_size: u16,
) -> (r: Option<String>)
    ensures
        match r {
            Some(s) => layout_with_sidebar(output@, sidebar_pane_id@, position, content_size) == Some(s@),
            None => layout_with_sidebar(output@, sidebar_pane_id@, position, content_size) is None,
        },
{
    let line = text::trim(output);
    let (status, layout) = match text::split_once(line, '\t') {
        Some((status, layout)) => (status, layout),
        None => ("", line),
    };
    proof {
        reveal_strlit("");
        assert(""@ =~= Seq::<char>::empty());
    }
    let size: u16 = sidebar_layout_size_for_status(position, content_size, status);
    let mut root = parse_layout(layout)?;
    let axis = Axis::for_position(position);
    let pane: u32 = match parse_pane_number(sidebar_pane_id) {
        Some(n) => n,
        None => 0,
    };
    if !reflow(&mut root, axis, pane, size) {
        return None;
    }
    let new_layout = serialize_layout(&root);
    if text::same(new_layout.as_str(), layout) {
        None
    } else {
        Some(new_layout)
    }
}

/// The layout of a window without the sidebar pane, its content scaled to the whole window.
pub open spec fn layout_without_sidebar(output: Seq<char>, sidebar_pane_id: Seq<char>, at: SidebarPosition) -> Option<
    Seq<char>,
> {
    match read_layout(vstd::utf8::encode_utf8(text::trimmed(output))) {
        Some(t) => match pane_number(sidebar_pane_id) {
            Some(n) => match pruned(t, n as u32) {
                Some(content) => {
                    let axis = axis_of(at);
                    let rect = rect_of(t);
                    Some(layout_text(scaled(content, axis, extent(rect, axis), position(rect, axis))))
                },
                None => None,
            },
            None => None,
        },
        None => None,
    }
}

/// Computes the layout string for a window after removing the sidebar pane.
///
/// The sidebar is pruned from the live layout and the remaining content scaled to fill the
/// window, which keeps whatever arrangement was made while the sidebar was open.
pub fn layout_after_sidebar_remove(output: &str, sidebar_pane_id: &str, position: SidebarPosition) -> (r: Option<String>)
    ensures
        match r {
            Some(s) => layout_without_sidebar(output@, sidebar_pane_id@, position) == Some(s@),
            None => layout_without_sidebar(output@, sidebar_pane_id@, position) is None,
        },
{
    let root = parse_layout(text::trim(output))?;
    let window = *root.rect();
    let pane: u32 = parse_pane_number(sidebar_pane_id)?;
    let axis = Axis::for_position(position);
    let mut content = prune_pane(root, pane)?;
    scale_axis(&mut content, axis, rect_extent(&window, axis), rect_pos(&window, axis));
    Some(serialize_layout(&content))
}

// ── What the window operations keep ─────────────────────────────

proof fn lemma_scaled_filled(t: Tree, axis: Axis, len: u16, pos: u16)
    requires
        filled(t),
    ensures
        filled(scaled(t, axis, len, pos)),
    decreases t, 0int,
{
    match t {
        Tree::Leaf { .. } => {},
        Tree::HSplit { children, .. } => lemma_scaled_children_filled(
            children,
            axis,
            axis == Axis::Horizontal,
            len,
            pos,
        ),
        Tree::VSplit { children, .. } => lemma_scaled_children_filled(
            children,
            axis,
            axis == Axis::Vertical,
            len,
            pos,
        ),
    }
}

proof fn lemma_scaled_children_filled(ts: Seq<Tree>, axis: Axis, along: bool, len: u16, pos: u16)
    requires
        all_filled(ts),
    ensures
        all_filled(scaled_children(ts, axis, along, len, pos)),
    decreases ts, 1int,
{
    let cs = scaled_children(ts, axis, along, len, pos);
    let lens = shares(extents(ts, axis), less(len, separators(ts.len())));
    assert forall|i: int| 0 <= i < cs.len() implies filled(#[trigger] cs[i]) by {
        assert(filled(ts[i]));
        if along {
            lemma_scaled_filled(ts[i], axis, lens[i], begins(lens, pos, i));
        } else {
            lemma_scaled_filled(ts[i], axis, len, pos);
        }
    }
}

proof fn lemma_pruned_filled(t: Tree, target: u32)
    requires
        filled(t),
    ensures
        pruned(t, target) matches Some(p) ==> filled(p),
    decreases t, 0int,
{
    match t {
        Tree::Leaf { .. } => {},
        Tree::HSplit { children, .. } => lemma_all_pruned_filled(children, target),
        Tree::VSplit { children, .. } => lemma_all_pruned_filled(children, target),
    }
}

proof fn lemma_all_pruned_filled(ts: Seq<Tree>, target: u32)
    requires
        all_filled(ts),
    ensures
        all_filled(all_pruned(ts, target)),
    decreases ts, 1int,
{
    if ts.len() > 0 {
        let front = ts.drop_last();
        assert(all_filled(front)) by {
            assert forall|i: int| 0 <= i < front.len() implies filled(#[trigger] front[i]) by {
                assert(front[i] == ts[i]);
            }
        }
        lemma_all_pruned_filled(front, target);
        lemma_pruned_filled(ts.last(), target);
        let kept = all_pruned(ts, target);
        let kept0 = all_pruned(front, target);
        assert forall|i: int| 0 <= i < kept.len() implies filled(#[trigger] kept[i]) by {
            if i < kept0.len() {
                assert(kept[i] == kept0[i]);
            }
        }
    }
}

/// The layout computed for a removed sidebar is one that tmux reads: it holds every other pane of
/// the window in order, the sidebar no more, and it spans the window along the sidebar's axis.
pub proof fn law_removal_keeps_the_content(output: Seq<char>, pane_id: Seq<char>, at: SidebarPosition)
    ensures
        layout_without_sidebar(output, pane_id, at) matches Some(s) ==> {
            let before = read_layout(vstd::utf8::encode_utf8(text::trimmed(output)));
            let after = read_layout(vstd::utf8::encode_utf8(s));
            let pane = pane_number(pane_id)->0 as u32;
            let axis = axis_of(at);
            &&& before matches Some(b)
            &&& after matches Some(a)
            &&& panes(a) == panes(b).filter(|p: u32| p != pane)
            &&& extent(rect_of(a), axis) == extent(rect_of(b), axis)
            &&& position(rect_of(a), axis) == position(rect_of(b), axis)
        },
{
    let b = vstd::utf8::encode_utf8(text::trimmed(output));
    law_read_trees_are_filled(b);
    if let Some(t) = read_layout(b) {
        if let Some(n) = pane_number(pane_id) {
            let axis = axis_of(at);
            law_pruning_takes_the_target_alone(t, n as u32);
            lemma_pruned_filled(t, n as u32);
            if let Some(content) = pruned(t, n as u32) {
                let (len, pos) = (extent(rect_of(t), axis), position(rect_of(t), axis));
                law_scaling_keeps_panes(content, axis, len, pos);
                lemma_scaled_filled(content, axis, len, pos);
                law_written_layouts_are_read_back(scaled(content, axis, len, pos));
            }
        }
    }
}

proof fn lemma_reflowed_children(ts: Seq<Tree>, axis: Axis, at: int, size: u16, available: u16, pos: u16, k: nat)
    requires
        0 <= at < ts.len(),
        ts[at] is Leaf,
        k <= ts.len(),
        all_filled(ts),
    ensures
        all_panes(reflowed_children(ts, axis, at, size, available, pos).take(k as int)) == all_panes(
            ts.take(k as int),
        ),
        all_filled(reflowed_children(ts, axis, at, size, available, pos).take(k as int)),
    decreases k,
{
    let cs = reflowed_children(ts, axis, at, size, available, pos);
    if k > 0 {
        let j = k - 1;
        lemma_reflowed_children(ts, axis, at, size, available, pos, j as nat);
        assert(cs.take(k as int).drop_last() =~= cs.take(j));
        assert(ts.take(k as int).drop_last() =~= ts.take(j));
        assert(filled(ts[j]));
        let lens = shares(extents(ts.remove(at), axis), available);
        let start = if pos + size + 1 <= 0xffff {
            (pos + size + 1) as u16
        } else {
            0xffff
        };
        let i = if j < at {
            j
        } else {
            j - 1
        };
        law_scaling_keeps_panes(ts[j], axis, lens[i], begins(lens, start, i));
        lemma_scaled_filled(ts[j], axis, lens[i], begins(lens, start, i));
        assert(panes(cs[j]) == panes(ts[j])) by {
            if j == at {
                assert(cs[j] is Leaf);
            }
        }
        assert(cs.take(k as int).last() == cs[j]);
        assert(ts.take(k as int).last() == ts[j]);
        assert forall|q: int| 0 <= q < k implies filled(#[trigger] cs.take(k as int)[q]) by {
            if q < j {
                assert(cs.take(k as int)[q] == cs.take(j)[q]);
            }
        }
    }
}

/// The layout computed for an added sidebar is one that tmux reads, and it holds the panes of the
/// window in the same order, in a root of the same size.
pub proof fn law_reflow_keeps_the_panes(output: Seq<char>, pane_id: Seq<char>, at: SidebarPosition, content_size: u16)
    ensures
        layout_with_sidebar(output, pane_id, at, content_size) matches Some(s) ==> {
            let before = read_layout(vstd::utf8::encode_utf8(reported(output).1));
            let after = read_layout(vstd::utf8::encode_utf8(s));
            &&& before matches Some(b)
            &&& after matches Some(a)
            &&& panes(a) == panes(b)
            &&& rect_of(a) == rect_of(b)
        },
{
    let (status, layout) = reported(output);
    let b = vstd::utf8::encode_utf8(layout);
    let size = sidebar_size(at, content_size, status);
    let pane = match pane_number(pane_id) {
        Some(n) => n as u32,
        None => 0,
    };
    law_read_trees_are_filled(b);
    if let Some(t) = read_layout(b) {
        let axis = axis_of(at);
        if let Some(new) = reflowed(t, axis, pane, size) {
            let ts = children_of(t);
            let idx = pane_index(ts, pane) as int;
            lemma_pane_index_holds(ts, pane);
            let available = content_room(extent(rect_of(t), axis), size, ts.len());
            let pos = position(rect_of(t), axis);
            lemma_reflowed_children(ts, axis, idx, size, available, pos, ts.len());
            let cs = reflowed_children(ts, axis, idx, size, available, pos);
            assert(cs.take(ts.len() as int) =~= cs);
            assert(ts.take(ts.len() as int) =~= ts);
            assert(filled(new));
            law_written_layouts_are_read_back(new);
        }
    }
}

/// The content beside an added sidebar fills what the sidebar and the separators leave.
pub proof fn law_reflowed_content_fills(ts: Seq<Tree>, axis: Axis, at: int, size: u16, available: u16, pos: u16)
    requires
        0 <= at < ts.len(),
        total(extents(ts.remove(at), axis)) > 0,
    ensures
        total(extents(reflowed_children(ts, axis, at, size, available, pos).remove(at), axis)) == available,
{
    let rest = ts.remove(at);
    let lens = shares(extents(rest, axis), available);
    law_shares_fill(extents(rest, axis), available);
    assert(extents(reflowed_children(ts, axis, at, size, available, pos).remove(at), axis) =~= lens);
}

// ── What the window operations are for ──────────────────────────

/// What tmux reports is read as it is written: a status, a tab and a layout.
proof fn lemma_reported(status: Seq<char>, layout: Seq<char>)
    requires
        text::trimmed(status + seq!['\t'] + layout) == status + seq!['\t'] + layout,
        forall|i: int| 0 <= i < status.len() ==> #[trigger] status[i] != '\t',
    ensures
        reported(status + seq!['\t'] + layout) == (status, layout),
{
    let line = status + seq!['\t'] + layout;
    let k = status.len() as int;
    assert forall|j: int| 0 <= j < k implies line[j] != '\t' by {
        assert(line[j] == status[j]);
    }
    text::lemma_first_at_is(line, '\t', k);
    assert(line.take(k) =~= status);
    assert(line.skip(k + 1) =~= layout);
}

proof fn lemma_pane_number(n: nat)
    requires
        n <= 0xffff_ffff,
    ensures
        pane_number(seq!['%'] + text::numeral(n)) == Some(n),
{
    let id = seq!['%'] + text::numeral(n);
    text::lemma_numeral(n);
    reveal_strlit("%");
    assert("%"@ =~= seq!['%']);
    assert(id.take(1) =~= "%"@);
    assert(id.skip(1) =~= text::numeral(n));
    assert(text::is_digit(text::numeral(n)[0]));
}

proof fn lemma_added_sidebar(
    status: Seq<char>,
    layout: Seq<char>,
    number: u32,
    at: SidebarPosition,
    content_size: u16,
    t: Tree,
    j: int,
)
    requires
        text::trimmed(status + seq!['\t'] + layout) == status + seq!['\t'] + layout,
        forall|i: int| 0 <= i < status.len() ==> #[trigger] status[i] != '\t',
        read_layout(vstd::utf8::encode_utf8(layout)) == Some(t),
        splits_along(t, axis_of(at)),
        0 <= j < children_of(t).len() <= 0xffff,
        is_pane(children_of(t)[j], number),
        forall|i: int| 0 <= i < j ==> !is_pane(#[trigger] children_of(t)[i], number),
        extent(rect_of(children_of(t)[j]), axis_of(at)) != sidebar_size(at, content_size, status),
        extent(rect_of(t), axis_of(at)) > sidebar_size(at, content_size, status) + children_of(t).len() - 1,
    ensures
        ({
            let axis = axis_of(at);
            let size = sidebar_size(at, content_size, status);
            let ts = children_of(t);
            &&& reflowed(t, axis, number, size) matches Some(new)
            &&& layout_with_sidebar(
                status + seq!['\t'] + layout,
                seq!['%'] + text::numeral(number as nat),
                at,
                content_size,
            ) == Some(layout_text(new))
            &&& read_layout(vstd::utf8::encode_utf8(layout_text(new))) == Some(new)
            &&& splits_along(new, axis)
            &&& rect_of(new) == rect_of(t)
            &&& children_of(new).len() == ts.len()
            &&& children_of(new)[j] == (Tree::Leaf {
                rect: moved(rect_of(ts[j]), axis, size, position(rect_of(t), axis)),
                pane_id: number,
            })
            &&& total(extents(ts.remove(j), axis)) > 0 ==> total(extents(children_of(new), axis)) + ts.len() - 1
                == extent(rect_of(t), axis)
        }),
{
    lemma_reported(status, layout);
    lemma_pane_number(number as nat);
    let b = vstd::utf8::encode_utf8(layout);
    let size = sidebar_size(at, content_size, status);
    let axis = axis_of(at);
    let ts = children_of(t);
    law_read_trees_are_filled(b);
    lemma_pane_index(ts, number, j);
    let available = content_room(extent(rect_of(t), axis), size, ts.len());
    let pos = position(rect_of(t), axis);
    assert(available == extent(rect_of(t), axis) - size - (ts.len() - 1));
    let new = reflowed(t, axis, number, size)->0;
    let cs = reflowed_children(ts, axis, j, size, available, pos);
    lemma_reflowed_children(ts, axis, j, size, available, pos, ts.len());
    assert(cs.take(ts.len() as int) =~= cs);
    assert(ts.take(ts.len() as int) =~= ts);
    assert(filled(new));
    law_written_layouts_are_read_back(new);
    if layout_text(new) == layout {
        assert(new == t);
        assert(cs[j] == ts[j]);
    }
    if total(extents(ts.remove(j), axis)) > 0 {
        law_reflowed_content_fills(ts, axis, j, size, available, pos);
        lemma_total_remove(extents(cs, axis), j);
        assert(extents(cs, axis).remove(j) =~= extents(cs.remove(j), axis));
        assert(extents(cs, axis)[j] == size);
    }
}

/// A sidebar that was added at the left gets its width. Where a window of columns has the sidebar's
/// pane among them, at another width than is asked for, and has room for more than the sidebar, there
/// is a layout to apply. In it, the sidebar takes exactly the width asked for at the window's edge, the
/// window is the same, and the columns fill it.
pub proof fn law_added_left_sidebars_get_their_width(
    status: Seq<char>,
    layout: Seq<char>,
    number: u32,
    content_size: u16,
    rect: Rect,
    children: Seq<Tree>,
    j: int,
    side: Rect,
)
    requires
        text::trimmed(status + seq!['\t'] + layout) == status + seq!['\t'] + layout,
        forall|i: int| 0 <= i < status.len() ==> #[trigger] status[i] != '\t',
        read_layout(vstd::utf8::encode_utf8(layout)) == Some(Tree::HSplit { rect, children }),
        0 <= j < children.len() <= 0xffff,
        children[j] == (Tree::Leaf { rect: side, pane_id: number }),
        forall|i: int| 0 <= i < j ==> !((#[trigger] children[i]) matches Tree::Leaf { pane_id, .. } && pane_id == number),
        side.w != content_size,
        rect.w > content_size + children.len() - 1,
    ensures
        layout_with_sidebar(
            status + seq!['\t'] + layout,
            seq!['%'] + text::numeral(number as nat),
            SidebarPosition::Left,
            content_size,
        ) matches Some(s) && read_layout(vstd::utf8::encode_utf8(s)) matches Some(Tree::HSplit { rect: now, children: parts })
            && now == rect && parts.len() == children.len() && parts[j] == (Tree::Leaf {
            rect: Rect { w: content_size as u16, x: rect.x, ..side },
            pane_id: number,
        }) && (widths(children.remove(j)) > 0 ==> widths(parts) + parts.len() - 1 == rect.w),
{
    lemma_added_sidebar(status, layout, number, SidebarPosition::Left, content_size, Tree::HSplit { rect, children }, j);
    lemma_lengths(children.remove(j), axis_of(SidebarPosition::Left));
    let size = sidebar_size(SidebarPosition::Left, content_size, status);
    let new = reflowed(Tree::HSplit { rect, children }, axis_of(SidebarPosition::Left), number, size)->0;
    lemma_lengths(children_of(new), axis_of(SidebarPosition::Left));
}

/// A sidebar that was added on top gets its height, one row more where a status line stands above each
/// pane. Where a window of rows has the sidebar's pane among them, at another height, and has room for
/// more than the sidebar, there is a layout to apply. In it, the sidebar takes exactly that height at
/// the window's edge, the window is the same, and the rows fill it.
pub proof fn law_added_top_sidebars_get_their_height(
    status: Seq<char>,
    layout: Seq<char>,
    number: u32,
    content_size: u16,
    rect: Rect,
    children: Seq<Tree>,
    j: int,
    side: Rect,
)
    requires
        text::trimmed(status + seq!['\t'] + layout) == status + seq!['\t'] + layout,
        forall|i: int| 0 <= i < status.len() ==> #[trigger] status[i] != '\t',
        read_layout(vstd::utf8::encode_utf8(layout)) == Some(Tree::VSplit { rect, children }),
        0 <= j < children.len() <= 0xffff,
        children[j] == (Tree::Leaf { rect: side, pane_id: number }),
        forall|i: int| 0 <= i < j ==> !((#[trigger] children[i]) matches Tree::Leaf { pane_id, .. } && pane_id == number),
        side.h != (if status == seq!['t', 'o', 'p'] && content_size < 0xffff { content_size + 1 } else { content_size as int }),
        rect.h > (if status == seq!['t', 'o', 'p'] && content_size < 0xffff { content_size + 1 } else { content_size as int }) + children.len() - 1,
    ensures
        layout_with_sidebar(
            status + seq!['\t'] + layout,
            seq!['%'] + text::numeral(number as nat),
            SidebarPosition::Top,
            content_size,
        ) matches Some(s) && read_layout(vstd::utf8::encode_utf8(s)) matches Some(Tree::VSplit { rect: now, children: parts })
            && now == rect && parts.len() == children.len() && parts[j] == (Tree::Leaf {
            rect: Rect { h: (if status == seq!['t', 'o', 'p'] && content_size < 0xffff { content_size + 1 } else { content_size as int }) as u16, y: rect.y, ..side },
            pane_id: number,
        }) && (heights(children.remove(j)) > 0 ==> heights(parts) + parts.len() - 1 == rect.h),
{
    reveal_strlit("top");
    assert("top"@ =~= seq!['t', 'o', 'p']);
    lemma_added_sidebar(status, layout, number, SidebarPosition::Top, content_size, Tree::VSplit { rect, children }, j);
    lemma_lengths(children.remove(j), axis_of(SidebarPosition::Top));
    let size = sidebar_size(SidebarPosition::Top, content_size, status);
    let new = reflowed(Tree::VSplit { rect, children }, axis_of(SidebarPosition::Top), number, size)->0;
    lemma_lengths(children_of(new), axis_of(SidebarPosition::Top));
}

/// The widths of parts that stand side by side, taken together.
pub open spec fn widths(ts: Seq<Tree>) -> nat
    decreases ts.len(),
{
    if ts.len() == 0 {
        0
    } else {
        widths(ts.drop_last()) + match ts.last() {
            Tree::Leaf { rect, .. } => rect.w,
            Tree::HSplit { rect, .. } => rect.w,
            Tree::VSplit { rect, .. } => rect.w,
        } as nat
    }
}

/// The heights of parts that stand on top of each other, taken together.
pub open spec fn heights(ts: Seq<Tree>) -> nat
    decreases ts.len(),
{
    if ts.len() == 0 {
        0
    } else {
        heights(ts.drop_last()) + match ts.last() {
            Tree::Leaf { rect, .. } => rect.h,
            Tree::HSplit { rect, .. } => rect.h,
            Tree::VSplit { rect, .. } => rect.h,
        } as nat
    }
}

proof fn lemma_lengths(ts: Seq<Tree>, axis: Axis)
    ensures
        axis == Axis::Horizontal ==> total(extents(ts, axis)) == widths(ts),
        axis == Axis::Vertical ==> total(extents(ts, axis)) == heights(ts),
    decreases ts.len(),
{
    if ts.len() > 0 {
        lemma_lengths(ts.drop_last(), axis);
        assert(extents(ts, axis).drop_last() =~= extents(ts.drop_last(), axis));
    }
}

proof fn lemma_total_remove(lens: Seq<u16>, i: int)
    requires
        0 <= i < lens.len(),
    ensures
        total(lens) == total(lens.remove(i)) + lens[i],
    decreases lens.len(),
{
    if i == lens.len() - 1 {
        assert(lens.remove(i) =~= lens.drop_last());
    } else {
        lemma_total_remove(lens.drop_last(), i);
        assert(lens.remove(i).drop_last() =~= lens.drop_last().remove(i));
    }
}

/// Room is dealt out in proportion: nobody but the last gets more than half a cell above its share of
/// `available`, nor less than half a cell below it while anything is left.
pub proof fn law_shares_are_proportional(old: Seq<u16>, available: u16, i: int)
    requires
        0 <= i < old.len() - 1,
        total(old) > 0,
    ensures
        2 * shares(old, available)[i] * total(old) <= 2 * old[i] * available + total(old),
        2 * shares(old, available)[i] * total(old) + total(old) > 2 * old[i] * available || total(
            shares(old, available).take(i + 1),
        ) == available,
{
    let lens = shares(old, available);
    let n = old.len() as int;
    lemma_first_shares(old, available, (n - 1) as nat);
    lemma_first_shares_front(old, available, (n - 1) as nat, (i + 1) as nat);
    assert(lens.take(i + 1) =~= first_shares(old, available, (i + 1) as nat));
    lemma_first_shares(old, available, i as nat);
    let before = first_shares(old, available, i as nat);
    let left = available - total(before);
    let (x, a, all) = (old[i] as int, available as int, total(old) as int);
    let share = (2 * x * a + all) / (2 * all);
    assert(share == rounded_share(old[i] as nat, available as nat, total(old)));
    assert(2 * all * share <= 2 * x * a + all < 2 * all * share + 2 * all) by (nonlinear_arith)
        requires
            all > 0,
            x >= 0,
            a >= 0,
            share == (2 * x * a + all) / (2 * all),
    ;
    let got = lens[i] as int;
    assert(got == first_shares(old, available, (i + 1) as nat)[i]);
    assert(got <= share);
    assert(2 * got * all <= 2 * all * share) by (nonlinear_arith)
        requires
            got <= share,
            all > 0,
    ;
    if got == share {
        assert(2 * got * all == 2 * all * share) by (nonlinear_arith)
            requires
                got == share,
        ;
    } else {
        assert(got == left);
        assert(lens.take(i + 1).drop_last() =~= before);
    }
}

proof fn lemma_first_shares_front(old: Seq<u16>, available: u16, k: nat, j: nat)
    requires
        j <= k,
    ensures
        first_shares(old, available, k).take(j as int) == first_shares(old, available, j),
    decreases k,
{
    lemma_first_shares(old, available, k);
    if j < k {
        lemma_first_shares_front(old, available, (k - 1) as nat, j);
        lemma_first_shares(old, available, (k - 1) as nat);
        assert(first_shares(old, available, k).take(j as int) =~= first_shares(old, available, (k - 1) as nat).take(
            j as int,
        ));
    } else {
        assert(first_shares(old, available, k).take(j as int) =~= first_shares(old, available, k));
    }
}

/// A sidebar that is removed gives its room back. Where the window holds another pane, there is a
/// layout to apply; it holds the other panes in order and spans the whole window, in both directions
/// as the content is cut.
pub proof fn law_removed_sidebars_give_their_room_back(
    layout: Seq<char>,
    number: u32,
    at: SidebarPosition,
    t: Tree,
    other: u32,
)
    requires
        text::trimmed(layout) == layout,
        read_layout(vstd::utf8::encode_utf8(layout)) == Some(t),
        panes(t).contains(other),
        other != number,
    ensures
        layout_without_sidebar(layout, seq!['%'] + text::numeral(number as nat), at) matches Some(s) && read_layout(
            vstd::utf8::encode_utf8(s),
        ) matches Some(new) && panes(new) == panes(t).filter(|p: u32| p != number) && panes(new).contains(other) && match at {
            SidebarPosition::Left => rect_of(new).w == rect_of(t).w && rect_of(new).x == rect_of(t).x,
            SidebarPosition::Top => rect_of(new).h == rect_of(t).h && rect_of(new).y == rect_of(t).y,
        },
{
    let id = seq!['%'] + text::numeral(number as nat);
    lemma_pane_number(number as nat);
    law_removal_keeps_the_content(layout, id, at);
    law_pruning_takes_the_target_alone(t, number);
    let f = |p: u32| p != number;
    let i = choose|i: int| 0 <= i < panes(t).len() && panes(t)[i] == other;
    panes(t).lemma_filter_contains(f, i);
}

// ── Doing it again ──────────────────────────────────────────────

/// Scaling to the same place once more changes nothing.
pub proof fn law_scaling_is_settled(t: Tree, axis: Axis, len: u16, pos: u16)
    ensures
        scaled(scaled(t, axis, len, pos), axis, len, pos) == scaled(t, axis, len, pos),
    decreases t, 0int,
{
    match t {
        Tree::Leaf { .. } => {},
        Tree::HSplit { children, .. } => lemma_scaled_children_settled(
            children,
            axis,
            axis == Axis::Horizontal,
            len,
            pos,
        ),
        Tree::VSplit { children, .. } => lemma_scaled_children_settled(
            children,
            axis,
            axis == Axis::Vertical,
            len,
            pos,
        ),
    }
}

proof fn lemma_scaled_children_settled(ts: Seq<Tree>, axis: Axis, along: bool, len: u16, pos: u16)
    ensures
        scaled_children(scaled_children(ts, axis, along, len, pos), axis, along, len, pos) == scaled_children(
            ts,
            axis,
            along,
            len,
            pos,
        ),
    decreases ts, 1int,
{
    let available = less(len, separators(ts.len()));
    let lens = shares(extents(ts, axis), available);
    let cs = scaled_children(ts, axis, along, len, pos);
    lemma_shares_len(extents(ts, axis), available);
    law_shares_are_settled(extents(ts, axis), available);
    if along {
        assert forall|i: int| 0 <= i < cs.len() implies extent(rect_of(#[trigger] cs[i]), axis) == lens[i] by {
            law_scaling_sets_one_axis(ts[i], axis, lens[i], begins(lens, pos, i));
        }
        assert(extents(cs, axis) =~= lens);
    }
    assert forall|i: int| 0 <= i < cs.len() implies #[trigger] scaled_children(cs, axis, along, len, pos)[i] == cs[i] by {
        if along {
            law_scaling_is_settled(ts[i], axis, lens[i], begins(lens, pos, i));
        } else {
            law_scaling_is_settled(ts[i], axis, len, pos);
        }
    }
    assert(scaled_children(cs, axis, along, len, pos) =~= cs);
}

/// A window that was reflowed beside its sidebar is reflowed to itself.
pub proof fn law_reflow_is_settled(t: Tree, axis: Axis, pane: u32, size: u16)
    ensures
        reflowed(t, axis, pane, size) matches Some(new) ==> reflowed(new, axis, pane, size) == Some(new),
{
    if let Some(new) = reflowed(t, axis, pane, size) {
        let ts = children_of(t);
        let at = pane_index(ts, pane) as int;
        let rect = rect_of(t);
        let pos = position(rect, axis);
        let available = content_room(extent(rect, axis), size, ts.len());
        let cs = reflowed_children(ts, axis, at, size, available, pos);
        let lens = shares(extents(ts.remove(at), axis), available);
        let start = if pos + size + 1 <= 0xffff {
            (pos + size + 1) as u16
        } else {
            0xffff
        };
        lemma_pane_index_holds(ts, pane);
        lemma_pane_index_first(ts, pane);
        lemma_shares_len(extents(ts.remove(at), axis), available);
        law_shares_are_settled(extents(ts.remove(at), axis), available);
        assert(children_of(new) == cs);
        assert forall|j: int| 0 <= j < at implies !is_pane(#[trigger] cs[j], pane) by {
            assert(!is_pane(ts[j], pane));
        }
        assert(is_pane(cs[at], pane));
        lemma_pane_index(cs, pane, at);
        assert forall|k: int| 0 <= k < lens.len() implies extent(rect_of(#[trigger] cs.remove(at)[k]), axis)
            == lens[k] by {
            let j = if k < at {
                k
            } else {
                k + 1
            };
            assert(cs.remove(at)[k] == cs[j]);
            law_scaling_sets_one_axis(ts[j], axis, lens[k], begins(lens, start, k));
        }
        assert(extents(cs.remove(at), axis) =~= lens);
        let again = reflowed_children(cs, axis, at, size, available, pos);
        assert forall|j: int| 0 <= j < cs.len() implies #[trigger] again[j] == cs[j] by {
            if j != at {
                let k = if j < at {
                    j
                } else {
                    j - 1
                };
                law_scaling_is_settled(ts[j], axis, lens[k], begins(lens, start, k));
            }
        }
        assert(again =~= cs);
    }
}

proof fn lemma_pane_index_first(ts: Seq<Tree>, pane: u32)
    ensures
        forall|j: int| 0 <= j < pane_index(ts, pane) ==> !is_pane(#[trigger] ts[j], pane),
    decreases ts.len(),
{
    if ts.len() > 0 && !is_pane(ts[0], pane) {
        lemma_pane_index_first(ts.skip(1), pane);
        lemma_pane_index_holds(ts, pane);
        assert forall|j: int| 0 <= j < pane_index(ts, pane) implies !is_pane(#[trigger] ts[j], pane) by {
            if j > 0 {
                assert(ts.skip(1)[j - 1] == ts[j]);
            }
        }
    }
}

// ── Where things stand, and how they are written ────────────────

/// Scaling along one direction gives a node its length and place there, and leaves the other direction
/// as it was.
pub proof fn law_scaled_nodes_keep_the_other_direction(t: Tree, len: u16, pos: u16)
    ensures
        rect_of(scaled(t, Axis::Horizontal, len, pos)) == (Rect { w: len, x: pos, ..rect_of(t) }),
        rect_of(scaled(t, Axis::Vertical, len, pos)) == (Rect { h: len, y: pos, ..rect_of(t) }),
{
}

/// Columns stand side by side, one cell apart, from the left edge on; across, every one takes the whole
/// height. Rows do so from the top.
pub proof fn law_neighbours_are_one_cell_apart(rect: Rect, ts: Seq<Tree>, len: u16, pos: u16, i: int)
    requires
        0 <= i < ts.len(),
    ensures
        scaled(Tree::HSplit { rect, children: ts }, Axis::Horizontal, len, pos) matches Tree::HSplit {
            children: now,
            ..
        } && now.len() == ts.len() && rect_of(now[0]).x == pos && (i + 1 < ts.len() && rect_of(now[i]).x + rect_of(now[i]).w
            + 1 <= 0xffff ==> rect_of(now[i + 1]).x == rect_of(now[i]).x + rect_of(now[i]).w + 1),
        scaled(Tree::VSplit { rect, children: ts }, Axis::Vertical, len, pos) matches Tree::VSplit {
            children: now,
            ..
        } && now.len() == ts.len() && rect_of(now[0]).y == pos && (i + 1 < ts.len() && rect_of(now[i]).y + rect_of(now[i]).h
            + 1 <= 0xffff ==> rect_of(now[i + 1]).y == rect_of(now[i]).y + rect_of(now[i]).h + 1),
        scaled(Tree::HSplit { rect, children: ts }, Axis::Vertical, len, pos) matches Tree::HSplit {
            children: now,
            ..
        } && now.len() == ts.len() && rect_of(now[i]).h == len && rect_of(now[i]).y == pos,
        scaled(Tree::VSplit { rect, children: ts }, Axis::Horizontal, len, pos) matches Tree::VSplit {
            children: now,
            ..
        } && now.len() == ts.len() && rect_of(now[i]).w == len && rect_of(now[i]).x == pos,
{
    lemma_neighbours(ts, Axis::Horizontal, len, pos, i);
    lemma_neighbours(ts, Axis::Vertical, len, pos, i);
}

proof fn lemma_neighbours(ts: Seq<Tree>, axis: Axis, len: u16, pos: u16, i: int)
    requires
        0 <= i < ts.len(),
    ensures
        ({
            let now = scaled_children(ts, axis, true, len, pos);
            let at = position(rect_of(now[i]), axis) + extent(rect_of(now[i]), axis) + 1;
            &&& now.len() == ts.len()
            &&& position(rect_of(now[0]), axis) == pos
            &&& i + 1 < ts.len() && at <= 0xffff ==> position(rect_of(now[i + 1]), axis) == at
        }),
        ({
            let now = scaled_children(ts, axis, false, len, pos);
            &&& now.len() == ts.len()
            &&& position(rect_of(now[i]), axis) == pos
            &&& extent(rect_of(now[i]), axis) == len
        }),
{
    let available = less(len, separators(ts.len()));
    let lens = shares(extents(ts, axis), available);
    lemma_shares_len(extents(ts, axis), available);
    lemma_begins_next(lens, pos, i);
    assert(lens.take(0) =~= Seq::<u16>::empty());
    law_scaling_sets_one_axis(ts[0], axis, lens[0], begins(lens, pos, 0));
    law_scaling_sets_one_axis(ts[i], axis, lens[i], begins(lens, pos, i));
    law_scaling_sets_one_axis(ts[i], axis, len, pos);
    if i + 1 < ts.len() {
        law_scaling_sets_one_axis(ts[i + 1], axis, lens[i + 1], begins(lens, pos, i + 1));
    }
}

/// Beside a sidebar, the content begins one cell behind it and goes on without gaps, in its order.
pub proof fn law_content_begins_behind_the_sidebar(
    rect: Rect,
    ts: Seq<Tree>,
    pane: u32,
    size: u16,
    j: int,
    side: Rect,
    i: int,
)
    requires
        0 <= j < ts.len() <= 0xffff,
        ts[j] == (Tree::Leaf { rect: side, pane_id: pane }),
        forall|k: int| 0 <= k < j ==> !((#[trigger] ts[k]) matches Tree::Leaf { pane_id, .. } && pane_id == pane),
        rect.w > size + ts.len() - 1,
        rect.x + size + 1 <= 0xffff,
        0 <= i < ts.len() - 1,
    ensures
        ({
            let new = reflowed(Tree::HSplit { rect, children: ts }, Axis::Horizontal, pane, size);
            &&& new matches Some(Tree::HSplit { rect: whole, children: now })
            &&& whole == rect && now.len() == ts.len()
            &&& now[j] == (Tree::Leaf { rect: Rect { w: size, x: rect.x, ..side }, pane_id: pane })
            &&& rect_of(now.remove(j)[0]).x == rect.x + size + 1
            &&& i + 1 < now.remove(j).len() && rect_of(now.remove(j)[i]).x + rect_of(now.remove(j)[i]).w + 1 <= 0xffff
                ==> rect_of(now.remove(j)[i + 1]).x == rect_of(now.remove(j)[i]).x + rect_of(now.remove(j)[i]).w + 1
        }),
{
    let axis = Axis::Horizontal;
    let t = Tree::HSplit { rect, children: ts };
    assert forall|k: int| 0 <= k < j implies !is_pane(#[trigger] ts[k], pane) by {}
    assert(is_pane(ts[j], pane));
    lemma_pane_index(ts, pane, j);
    let available = content_room(rect.w, size, ts.len());
    assert(available > 0);
    let now = reflowed_children(ts, axis, j, size, available, rect.x);
    assert(reflowed(t, axis, pane, size) == Some(Tree::HSplit { rect, children: now }));
    let lens = shares(extents(ts.remove(j), axis), available);
    let start = (rect.x + size + 1) as u16;
    lemma_shares_len(extents(ts.remove(j), axis), available);
    lemma_begins_next(lens, start, i);
    assert(lens.take(0) =~= Seq::<u16>::empty());
    let content = now.remove(j);
    assert forall|k: int| 0 <= k < content.len() implies rect_of(#[trigger] content[k]).x == begins(lens, start, k)
        && rect_of(content[k]).w == lens[k] by {
        let m = if k < j {
            k
        } else {
            k + 1
        };
        assert(content[k] == now[m]);
        law_scaling_sets_one_axis(ts[m], axis, lens[k], begins(lens, start, k));
    }
    assert(rect_of(content[0]).x == begins(lens, start, 0));
    assert(rect_of(content[i]).x == begins(lens, start, i));
    if i + 1 < content.len() {
        assert(rect_of(content[i + 1]).x == begins(lens, start, i + 1));
    }
}

/// Whether no split of `t` has a lone child.
pub open spec fn tidy(t: Tree) -> bool
    decreases t,
{
    match t {
        Tree::Leaf { .. } => true,
        Tree::HSplit { children, .. } => children.len() > 1 && all_tidy(children),
        Tree::VSplit { children, .. } => children.len() > 1 && all_tidy(children),
    }
}

/// Whether no split among siblings has a lone child.
pub open spec fn all_tidy(ts: Seq<Tree>) -> bool
    decreases ts,
{
    ts.len() == 0 || (tidy(ts.last()) && all_tidy(ts.drop_last()))
}

/// Removing a pane leaves no split with a lone child, and leaves a tree without such splits as it is
/// where the pane is not in it.
pub proof fn law_pruned_trees_are_tidy(t: Tree, target: u32)
    ensures
        pruned(t, target) matches Some(new) ==> tidy(new),
        tidy(t) && !panes(t).contains(target) ==> pruned(t, target) == Some(t),
    decreases t, 1int,
{
    match t {
        Tree::Leaf { pane_id, .. } => {
            assert(panes(t)[0] == pane_id);
        },
        Tree::HSplit { children, .. } => {
            lemma_pruned_siblings_are_tidy(children, target);
            if all_pruned(children, target).len() == 1 {
                lemma_all_tidy(all_pruned(children, target), 0);
            }
        },
        Tree::VSplit { children, .. } => {
            lemma_pruned_siblings_are_tidy(children, target);
            if all_pruned(children, target).len() == 1 {
                lemma_all_tidy(all_pruned(children, target), 0);
            }
        },
    }
}

proof fn lemma_all_tidy(ts: Seq<Tree>, i: int)
    requires
        all_tidy(ts),
        0 <= i < ts.len(),
    ensures
        tidy(ts[i]),
    decreases ts.len(),
{
    if i < ts.len() - 1 {
        lemma_all_tidy(ts.drop_last(), i);
    }
}

proof fn lemma_pruned_siblings_are_tidy(ts: Seq<Tree>, target: u32)
    ensures
        all_tidy(all_pruned(ts, target)),
        all_tidy(ts) && !all_panes(ts).contains(target) ==> all_pruned(ts, target) == ts,
    decreases ts, 0int,
{
    if ts.len() > 0 {
        let front = ts.drop_last();
        law_pruned_trees_are_tidy(ts.last(), target);
        lemma_pruned_siblings_are_tidy(front, target);
        let kept = all_pruned(front, target);
        if let Some(last) = pruned(ts.last(), target) {
            assert(kept.push(last).drop_last() =~= kept);
        }
        if all_tidy(ts) && !all_panes(ts).contains(target) {
            assert forall|i: int| 0 <= i < all_panes(front).len() implies #[trigger] all_panes(front)[i] != target by {
                assert(all_panes(ts)[i] == all_panes(front)[i]);
            }
            assert forall|i: int| 0 <= i < panes(ts.last()).len() implies #[trigger] panes(ts.last())[i] != target by {
                assert(all_panes(ts)[all_panes(front).len() + i] == panes(ts.last())[i]);
            }
            assert(front.push(ts.last()) =~= ts);
        }
    }
}

/// A pane is written as width, `x`, height, column, row and number; a split as its place and its parts,
/// columns in braces and rows in brackets, with a comma between any two.
pub proof fn law_layouts_are_written_as_tmux_does(rect: Rect, pane_id: u32, ts: Seq<Tree>, t: Tree)
    ensures
        ({
            let place = text::numeral(rect.w as nat) + seq!['x'] + text::numeral(rect.h as nat) + seq![','] + text::numeral(
                rect.x as nat,
            ) + seq![','] + text::numeral(rect.y as nat);
            &&& node_text(Tree::Leaf { rect, pane_id }) == place + seq![','] + text::numeral(pane_id as nat)
            &&& node_text(Tree::HSplit { rect, children: seq![t] }) == place + seq!['{'] + node_text(t) + seq!['}']
            &&& node_text(Tree::VSplit { rect, children: seq![t] }) == place + seq!['['] + node_text(t) + seq![']']
        }),
        children_text(seq![t]) == node_text(t),
        ts.len() > 0 ==> children_text(ts.push(t)) == children_text(ts) + seq![','] + node_text(t),
{
    assert(seq![t][0] == t);
    assert(children_text(seq![t]) == node_text(t));
    assert(ts.push(t).drop_last() =~= ts);
}

/// The checksum takes the bytes in turn: half of the sum so far, its lowest bit on top, and the byte,
/// as far as sixteen bits go. Nothing sums up to zero.
pub proof fn law_checksums_take_the_bytes_in_turn(b: Seq<u8>, x: u8)
    ensures
        checksum(b.push(x)) == (checksum(b) / 2 + 0x8000 * (checksum(b) % 2) + x) % 0x10000,
        checksum(Seq::<u8>::empty()) == 0,
{
    assert(b.push(x).drop_last() =~= b);
    let c = checksum(b);
    assert((c >> 1) | ((c & 1) << 15) == c / 2 + 0x8000 * (c % 2)) by (bit_vector);
}

/// A layout carries the checksum of its text in front, as four hexadecimal digits and a comma.
pub proof fn law_layouts_carry_their_checksum(t: Tree, a: int, b: int, c: int, d: int)
    requires
        0 <= a < 16 && 0 <= b < 16 && 0 <= c < 16 && 0 <= d < 16,
        checksum(vstd::utf8::encode_utf8(node_text(t))) == 4096 * a + 256 * b + 16 * c + d,
    ensures
        ({
            let digits = "0123456789abcdef"@;
            layout_text(t) == seq![digits[a], digits[b], digits[c], digits[d], ','] + node_text(t)
        }),
{
    reveal_strlit("0123456789abcdef");
    let n = checksum(vstd::utf8::encode_utf8(node_text(t)));
    assert(n / 4096 == a);
    assert((n / 256) % 16 == b);
    assert((n / 16) % 16 == c);
    assert(n % 16 == d);
    let digits = "0123456789abcdef"@;
    assert forall|i: int| 0 <= i < 16 implies hex_char(i as nat) == #[trigger] digits[i] by {}
    assert(layout_text(t) =~= seq![digits[a], digits[b], digits[c], digits[d], ','] + node_text(t));
}

} // verus!
