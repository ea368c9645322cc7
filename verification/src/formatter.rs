//! Rendering the device index as an indented tree.
//!
//! The tree structure — headers, connectors, continuation prefixes and
//! sibling order — is computed as plain text lines; depth-cycled
//! coloring is applied per line through the `colored` crate when
//! enabled.

use colored::Color;
use colored::Colorize;
use vstd::prelude::*;
use vstd::string::StrSliceExecFns;
use vstd::string::StringExecFns;

use crate::device::spec_device_label;
use crate::device::UsbDevice;
use crate::digits::dec_digits_pad3;
use crate::digits::push_u8_decimal_pad3;
use crate::index::UsbTree;
use crate::tree::PortTree;

verus! {

/// Mathematical form of a rendering style.
pub struct StyleView {
    pub colored: bool,
    pub show_header: bool,
    pub indent: Seq<char>,
    pub branch: Seq<char>,
    pub corner: Seq<char>,
    pub vertical: Seq<char>,
}

/// Configuration for tree output: coloring, header, indent text and the
/// three connector glyphs.
#[derive(Debug, Clone)]
pub struct TreeStyle {
    /// Whether to use colored output.
    pub colored: bool,
    /// Whether to show the header.
    pub show_header: bool,
    /// Indent string for each level.
    pub indent: String,
    /// Connector for non-last items.
    pub branch: &'static str,
    /// Connector for last items.
    pub corner: &'static str,
    /// Vertical line for continuing branches.
    pub vertical: &'static str,
}

impl View for TreeStyle {
    type V = StyleView;

    open spec fn view(&self) -> StyleView {
        StyleView {
            colored: self.colored,
            show_header: self.show_header,
            indent: self.indent@,
            branch: self.branch@,
            corner: self.corner@,
            vertical: self.vertical@,
        }
    }
}

/// The default style: colored, Unicode box-drawing connectors.
pub open spec fn spec_default_style() -> StyleView {
    StyleView {
        colored: true,
        show_header: true,
        indent: "    "@,
        branch: "├── "@,
        corner: "└── "@,
        vertical: "│   "@,
    }
}

impl Default for TreeStyle {
    /// Colored output with Unicode box-drawing connectors.
    fn default() -> (r: Self)
        ensures
            r@ == spec_default_style(),
    {
        TreeStyle {
            colored: true,
            show_header: true,
            indent: String::from_str("    "),
            branch: "├── ",
            corner: "└── ",
            vertical: "│   ",
        }
    }
}

impl TreeStyle {
    /// Create a style with default settings.
    pub fn new() -> (r: Self)
        ensures
            r@ == spec_default_style(),
    {
        Self::default()
    }

    /// A plain (non-colored) style.
    pub fn plain() -> (r: Self)
        ensures
            r@ == (StyleView { colored: false, ..spec_default_style() }),
    {
        let mut s = Self::default();
        s.colored = false;
        s
    }

    /// An ASCII-only style (no Unicode box drawing).
    pub fn ascii() -> (r: Self)
        ensures
            r@ == (StyleView {
                branch: "|-- "@,
                corner: "`-- "@,
                vertical: "|   "@,
                ..spec_default_style()
            }),
    {
        let mut s = Self::default();
        s.branch = "|-- ";
        s.corner = "`-- ";
        s.vertical = "|   ";
        s
    }

    /// This style with coloring switched on or off.
    pub fn with_color(self, colored: bool) -> (r: Self)
        ensures
            r@ == (StyleView { colored, ..self@ }),
    {
        let mut s = self;
        s.colored = colored;
        s
    }

    /// This style with the header switched on or off.
    pub fn with_header(self, show_header: bool) -> (r: Self)
        ensures
            r@ == (StyleView { show_header, ..self@ }),
    {
        let mut s = self;
        s.show_header = show_header;
        s
    }
}

/// One output line before coloring: a plain structural prefix (indent,
/// continuation and connector glyphs), the label text, the color slot of
/// its depth, and whether the label is subject to coloring.
pub struct LineView {
    pub prefix: Seq<char>,
    pub text: Seq<char>,
    pub color: int,
    pub paint: bool,
}

/// One output line before coloring.
pub struct RenderLine {
    /// Structural prefix, emitted plain.
    pub prefix: String,
    /// Label text, subject to coloring.
    pub text: String,
    /// Color slot: the line's depth cycled through ten slots.
    pub color: u8,
    /// Whether the label is colorized when coloring is on.
    pub paint: bool,
}

impl View for RenderLine {
    type V = LineView;

    open spec fn view(&self) -> LineView {
        LineView {
            prefix: self.prefix@,
            text: self.text@,
            color: self.color as int,
            paint: self.paint,
        }
    }
}

/// The lines of one subtree: the node's own label line, if it stores a
/// key that resolves, then each child's lines in stored child order.
pub open spec fn spec_node_lines(
    t: UsbTree<UsbDevice>,
    node: PortTree<String>,
    prefix: Seq<char>,
    is_last: bool,
    depth: nat,
    sv: StyleView,
) -> Seq<LineView>
    decreases node, 1nat, 0nat,
{
    let conn: Seq<char> = if depth == 0 {
        Seq::empty()
    } else if is_last {
        sv.corner
    } else {
        sv.branch
    };
    let own: Seq<LineView> = match node.value {
        Option::Some(key) => match t.spec_get_key(key@) {
            Option::Some(dev) => seq![
                LineView {
                    prefix: prefix + conn,
                    text: spec_device_label(dev),
                    color: depth as int % 10,
                    paint: true,
                },
            ],
            Option::None => Seq::empty(),
        },
        Option::None => Seq::empty(),
    };
    let child_prefix: Seq<char> = if depth == 0 {
        Seq::empty()
    } else if is_last {
        prefix + sv.indent
    } else {
        prefix + sv.vertical
    };
    own + spec_node_lines_from(t, node, child_prefix, depth, 0, sv)
}

/// The lines of children `i..` of a node.
pub open spec fn spec_node_lines_from(
    t: UsbTree<UsbDevice>,
    node: PortTree<String>,
    child_prefix: Seq<char>,
    depth: nat,
    i: int,
    sv: StyleView,
) -> Seq<LineView>
    decreases node, 0nat, node.children@.len() - i,
{
    if 0 <= i < node.children@.len() {
        spec_node_lines(
            t,
            node.children@[i].1,
            child_prefix,
            i == node.children@.len() - 1,
            depth + 1,
            sv,
        ) + spec_node_lines_from(t, node, child_prefix, depth, i + 1, sv)
    } else {
        Seq::empty()
    }
}

/// The sections of buses `i..`: for each bus a header line, the lines of
/// the bus trie's children, and a blank separator line.
pub open spec fn spec_bus_sections(t: UsbTree<UsbDevice>, sv: StyleView, i: int) -> Seq<LineView>
    decreases t.spec_buses().len() - i,
{
    if 0 <= i < t.spec_buses().len() {
        let bus = t.spec_buses()[i];
        let trie = t.spec_bus_trie(bus)->0;
        seq![
            LineView {
                prefix: Seq::empty(),
                text: "Bus "@ + dec_digits_pad3(bus as nat),
                color: 0,
                paint: true,
            },
        ] + spec_node_lines_from(t, trie, Seq::empty(), 0, 0, sv) + seq![
            LineView { prefix: Seq::empty(), text: Seq::empty(), color: 0, paint: false },
        ] + spec_bus_sections(t, sv, i + 1)
    } else {
        Seq::empty()
    }
}

/// Every output line of the rendered tree, in order, before coloring.
pub open spec fn spec_render_lines(t: UsbTree<UsbDevice>, sv: StyleView) -> Seq<LineView> {
    spec_bus_sections(t, sv, 0)
}

/// The first `k` lines joined: prefix, painted label, newline.
pub open spec fn joined_upto(lines: Seq<LineView>, painted: Seq<Seq<char>>, k: int) -> Seq<char>
    decreases k,
{
    if k <= 0 {
        Seq::empty()
    } else {
        joined_upto(lines, painted, k - 1) + lines[k - 1].prefix + painted[k - 1] + seq!['\n']
    }
}

/// Joining reads only the first `k` painted labels.
pub proof fn lemma_joined_upto_agree(
    lines: Seq<LineView>,
    p1: Seq<Seq<char>>,
    p2: Seq<Seq<char>>,
    k: int,
)
    requires
        forall|j: int| 0 <= j < k ==> p1[j] == p2[j],
    ensures
        joined_upto(lines, p1, k) == joined_upto(lines, p2, k),
    decreases k,
{
    if k > 0 {
        lemma_joined_upto_agree(lines, p1, p2, k - 1);
    }
}

/// The rendered text when no coloring is applied: every label plain.
pub open spec fn spec_render_plain(t: UsbTree<UsbDevice>, sv: StyleView) -> Seq<char> {
    let lines = spec_render_lines(t, sv);
    joined_upto(lines, lines.map_values(|l: LineView| l.text), lines.len() as int)
}

/// The ANSI foreground code of a color slot, as the `colored` crate
/// writes it: red, yellow, green, cyan, blue, magenta, then the bright
/// variants of red, yellow, green and cyan.
pub open spec fn color_code(slot: int) -> Seq<char> {
    if slot == 0 {
        seq!['3', '1']
    } else if slot == 1 {
        seq!['3', '3']
    } else if slot == 2 {
        seq!['3', '2']
    } else if slot == 3 {
        seq!['3', '6']
    } else if slot == 4 {
        seq!['3', '4']
    } else if slot == 5 {
        seq!['3', '5']
    } else if slot == 6 {
        seq!['9', '1']
    } else if slot == 7 {
        seq!['9', '3']
    } else if slot == 8 {
        seq!['9', '2']
    } else {
        seq!['9', '6']
    }
}

/// The ANSI style prefix of a color slot.
pub open spec fn color_prefix(slot: int) -> Seq<char> {
    seq!['\u{1b}', '['] + color_code(slot) + seq!['m']
}

/// The ANSI reset sequence.
pub open spec fn reset_seq() -> Seq<char> {
    seq!['\u{1b}', '[', '0', 'm']
}

/// Whether `s` contains the ANSI reset sequence.
pub open spec fn has_reset(s: Seq<char>) -> bool {
    exists|i: int| 0 <= i && i + 4 <= s.len() && (#[trigger] s.subrange(i, i + 4)) == reset_seq()
}

/// What the `colored` crate makes of a label whose embedded reset
/// sequences were re-styled; a function of the label and slot alone.
pub uninterp spec fn styled_body(s: Seq<char>, slot: int) -> Seq<char>;

/// Relies on colored's `Colorize::color` and the `Display` of
/// `ColoredString`: the result is the plain text when the crate decides
/// (from the environment) not to colorize, and otherwise the ANSI style
/// prefix of the slot, the text with any embedded reset sequences
/// re-styled, and the reset suffix; a text without embedded resets is
/// kept as it is.
#[verifier::external_body]
fn paint_basic(text: &str, slot: u8) -> (r: String)
    ensures
        r@ == text@ || r@ == color_prefix(slot as int) + styled_body(text@, slot as int)
            + reset_seq(),
        !has_reset(text@) ==> (r@ == text@ || r@ == color_prefix(slot as int) + text@
            + reset_seq()),
{
    let c = match slot {
        0 => Color::Red,
        1 => Color::Yellow,
        2 => Color::Green,
        3 => Color::Cyan,
        4 => Color::Blue,
        5 => Color::Magenta,
        6 => Color::BrightRed,
        7 => Color::BrightYellow,
        8 => Color::BrightGreen,
        _ => Color::BrightCyan,
    };
    text.color(c).to_string()
}

/// What one painted label may be: the plain text, or the slot's ANSI
/// wrapping of its styled body.
pub open spec fn painted_rel(text: Seq<char>, slot: int, r: Seq<char>) -> bool {
    r == text || r == color_prefix(slot) + styled_body(text, slot) + reset_seq()
}

/// Renderer for a device index, with a configurable style.
pub struct TreeFormatter<'a> {
    tree: &'a UsbTree<UsbDevice>,
    style: TreeStyle,
}

impl<'a> TreeFormatter<'a> {
    /// The index being rendered.
    pub closed spec fn spec_tree(self) -> UsbTree<UsbDevice> {
        *self.tree
    }

    /// The style in force.
    pub closed spec fn spec_style(self) -> StyleView {
        self.style@
    }

    /// Create a formatter with the default (colored) style.
    pub fn new(tree: &'a UsbTree<UsbDevice>) -> (r: Self)
        ensures
            r.spec_tree() == *tree,
            r.spec_style() == spec_default_style(),
    {
        TreeFormatter { tree, style: TreeStyle::default() }
    }

    /// Create a formatter with a custom style.
    pub fn with_style(tree: &'a UsbTree<UsbDevice>, style: TreeStyle) -> (r: Self)
        ensures
            r.spec_tree() == *tree,
            r.spec_style() == style@,
    {
        TreeFormatter { tree, style }
    }

    /// Create a plain (non-colored) formatter.
    pub fn plain(tree: &'a UsbTree<UsbDevice>) -> (r: Self)
        ensures
            r.spec_tree() == *tree,
            r.spec_style() == (StyleView { colored: false, ..spec_default_style() }),
    {
        TreeFormatter { tree, style: TreeStyle::plain() }
    }

    /// Colorize a label for its color slot, when coloring is enabled.
    fn colorize(&self, text: &str, slot: u8) -> (r: String)
        ensures
            !self.spec_style().colored ==> r@ == text@,
            self.spec_style().colored ==> painted_rel(text@, slot as int, r@),
    {
        if !self.style.colored {
            return String::from_str(text);
        }
        paint_basic(text, slot)
    }

    /// Render the tree: one section per bus in ascending bus order, each
    /// a header line and the bus's subtree with connector-prefixed,
    /// depth-colored device lines, followed by a blank line.
    #[verifier::loop_isolation(false)]
    pub fn render(&self) -> (r: String)
        requires
            self.spec_tree().wf(),
        ensures
            ({
                let lines = spec_render_lines(self.spec_tree(), self.spec_style());
                exists|painted: Seq<Seq<char>>|
                    {
                        &&& painted.len() == lines.len()
                        &&& forall|i: int|
                            0 <= i < lines.len() ==> if self.spec_style().colored && lines[i].paint {
                                painted_rel(lines[i].text, lines[i].color, #[trigger] painted[i])
                            } else {
                                painted[i] == lines[i].text
                            }
                        &&& r@ == joined_upto(lines, painted, lines.len() as int)
                    }
            }),
            !self.spec_style().colored ==> r@ == spec_render_plain(
                self.spec_tree(),
                self.spec_style(),
            ),
    {
        let lines = render_lines(self.tree, &self.style);
        let ghost linesv = spec_render_lines(self.spec_tree(), self.spec_style());
        let mut out = String::new();
        let ghost mut painted: Seq<Seq<char>> = Seq::empty();
        let n = lines.len();
        let mut k: usize = 0;
        while k < n
            invariant
                k <= n == lines@.len(),
                linesv.len() == n,
                forall|j: int| 0 <= j < n ==> #[trigger] lines@[j]@ == linesv[j],
                painted.len() == k,
                forall|i: int|
                    0 <= i < k ==> if self.spec_style().colored && linesv[i].paint {
                        painted_rel(linesv[i].text, linesv[i].color, #[trigger] painted[i])
                    } else {
                        painted[i] == linesv[i].text
                    },
                out@ == joined_upto(linesv, painted, k as int),
            decreases n - k,
        {
            let line = &lines[k];
            let ghost prev = painted;
            let p: String = if line.paint {
                self.colorize(line.text.as_str(), line.color)
            } else {
                line.text.clone()
            };
            out.append(line.prefix.as_str());
            out.append(p.as_str());
            out.append("\n");
            proof {
                painted = painted.push(p@);
                reveal_strlit("\n");
                assert("\n"@ =~= seq!['\n']);
                lemma_joined_upto_agree(linesv, prev, painted, k as int);
                assert(out@ =~= joined_upto(linesv, painted, k as int) + linesv[k as int].prefix
                    + painted[k as int] + seq!['\n']);
            }
            k += 1;
        }
        proof {
            if !self.spec_style().colored {
                lemma_joined_upto_agree(
                    linesv,
                    painted,
                    linesv.map_values(|l: LineView| l.text),
                    n as int,
                );
            }
        }
        out
    }
}

/// The index of every line of the rendered tree, in order, uncolored.
#[verifier::loop_isolation(false)]
fn render_lines(t: &UsbTree<UsbDevice>, style: &TreeStyle) -> (r: Vec<RenderLine>)
    requires
        t.wf(),
    ensures
        r@.len() == spec_render_lines(*t, style@).len(),
        forall|j: int|
            0 <= j < r@.len() ==> (#[trigger] r@[j])@ == spec_render_lines(*t, style@)[j],
{
    let ghost all = spec_render_lines(*t, style@);
    let mut out: Vec<RenderLine> = Vec::new();
    let nb = t.bus_count();
    let mut i: usize = 0;
    while i < nb
        invariant
            i <= nb == t.spec_buses().len(),
            out@.len() <= all.len(),
            forall|j: int| 0 <= j < out@.len() ==> (#[trigger] out@[j])@ == all[j],
            spec_bus_sections(*t, style@, i as int) == all.skip(out@.len() as int),
        decreases nb - i,
    {
        let ghost cnt = out@.len() as int;
        let (bus, trie) = t.bus_entry(i);
        let ghost section = spec_bus_sections(*t, style@, i as int);
        let mut header = String::from_str("Bus ");
        push_u8_decimal_pad3(&mut header, bus);
        proof {
            reveal_strlit("Bus ");
        }
        out.push(
            RenderLine { prefix: String::new(), text: header, color: 0, paint: true },
        );
        proof {
            assert(all.skip(cnt)[0] == all[cnt]);
            assert(out@[cnt]@ == all[cnt]);
        }
        let ghost blankv = LineView {
            prefix: Seq::<char>::empty(),
            text: Seq::<char>::empty(),
            color: 0,
            paint: false,
        };
        let ghost rest = spec_bus_sections(*t, style@, i as int + 1);
        let ghost sub = spec_node_lines_from(*t, *trie, Seq::<char>::empty(), 0, 0, style@);
        proof {
            assert(all.skip(cnt).drop_first() =~= all.skip(cnt + 1));
            assert(sub + (seq![blankv] + rest) =~= all.skip(cnt + 1));
        }
        let empty_prefix = String::new();
        push_child_lines(t, trie, &empty_prefix, Ghost(0nat), 0, style, &mut out);
        let ghost mid = out@.len() as int;
        proof {
            assert(mid == cnt + 1 + sub.len());
            assert forall|j: int| 0 <= j < out@.len() implies (#[trigger] out@[j])@ == all[j] by {
                if cnt + 1 <= j {
                    assert(out@[j]@ == sub[j - cnt - 1]);
                    assert(all.skip(cnt + 1)[j - cnt - 1] == all[j]);
                    assert((sub + (seq![blankv] + rest))[j - cnt - 1] == sub[j - cnt - 1]);
                }
            }
        }
        out.push(
            RenderLine { prefix: String::new(), text: String::new(), color: 0, paint: false },
        );
        proof {
            assert(all.skip(cnt + 1)[mid - cnt - 1] == all[mid]);
            assert((sub + (seq![blankv] + rest))[mid - cnt - 1] == (seq![blankv] + rest)[0]);
            assert(out@[mid]@ == blankv);
            assert((sub + (seq![blankv] + rest)).skip(sub.len() as int + 1) =~= rest);
            assert(all.skip(cnt + 1).skip(sub.len() as int + 1) =~= all.skip(mid + 1));
            assert(rest == all.skip(out@.len() as int));
        }
        i += 1;
    }
    proof {
        assert(spec_bus_sections(*t, style@, nb as int) == Seq::<LineView>::empty());
        assert(all.skip(out@.len() as int).len() == 0);
    }
    out
}

/// Append the lines of children `0..` of `node`, with their common
/// continuation prefix, to `out`.
#[verifier::loop_isolation(false)]
fn push_child_lines(
    t: &UsbTree<UsbDevice>,
    node: &PortTree<String>,
    child_prefix: &String,
    Ghost(depth): Ghost<nat>,
    depth_mod: u8,
    style: &TreeStyle,
    out: &mut Vec<RenderLine>,
)
    requires
        depth_mod == depth % 10,
        depth_mod < 10,
    ensures
        final(out)@.len() == old(out)@.len() + spec_node_lines_from(
            *t,
            *node,
            child_prefix@,
            depth,
            0,
            style@,
        ).len(),
        forall|j: int| 0 <= j < old(out)@.len() ==> (#[trigger] final(out)@[j]) == old(out)@[j],
        forall|j: int|
            old(out)@.len() <= j < final(out)@.len() ==> (#[trigger] final(out)@[j])@
                == spec_node_lines_from(*t, *node, child_prefix@, depth, 0, style@)[j - old(
                out,
            )@.len()],
    decreases *node, 0nat, 0nat,
{
    let ghost sub = spec_node_lines_from(*t, *node, child_prefix@, depth, 0, style@);
    let ghost base = out@.len() as int;
    let n = node.children.len();
    let mut i: usize = 0;
    while i < n
        invariant
            i <= n == node.children@.len(),
            out@.len() >= base,
            out@.len() - base <= sub.len(),
            forall|j: int| 0 <= j < base ==> (#[trigger] out@[j]) == old(out)@[j],
            forall|j: int|
                base <= j < out@.len() ==> (#[trigger] out@[j])@ == sub[j - base],
            spec_node_lines_from(*t, *node, child_prefix@, depth, i as int, style@) == sub.skip(
                out@.len() - base,
            ),
        decreases n - i,
    {
        let ghost done = out@.len() - base;
        let child = &node.children[i].1;
        proof {
            assert(decreases_to!(*node, 0nat, 0nat => node.children@[i as int].1, 1nat, 0nat));
        }
        push_node_lines(
            t,
            child,
            child_prefix,
            i + 1 == n,
            Ghost((depth + 1) as nat),
            if depth_mod == 9 {
                0
            } else {
                depth_mod + 1
            },
            style,
            out,
        );
        proof {
            let cl = spec_node_lines(
                *t,
                node.children@[i as int].1,
                child_prefix@,
                i as int == node.children@.len() - 1,
                depth + 1,
                style@,
            );
            assert(spec_node_lines_from(*t, *node, child_prefix@, depth, i as int, style@) == cl
                + spec_node_lines_from(*t, *node, child_prefix@, depth, i as int + 1, style@));
            assert forall|j: int|
                base <= j < out@.len() implies (#[trigger] out@[j])@ == sub[j - base] by {
                if j - base >= done {
                    assert(out@[j]@ == cl[j - base - done]);
                    assert(sub.skip(done)[j - base - done] == sub[j - base]);
                    assert(sub.skip(done)[j - base - done] == cl[j - base - done]);
                }
            }
            assert((cl + spec_node_lines_from(*t, *node, child_prefix@, depth, i as int + 1, style@))
                .skip(cl.len() as int) =~= spec_node_lines_from(
                *t,
                *node,
                child_prefix@,
                depth,
                i as int + 1,
                style@,
            ));
            assert(sub.skip(done).skip(cl.len() as int) =~= sub.skip(done + cl.len()));
        }
        i += 1;
    }
    proof {
        assert(spec_node_lines_from(*t, *node, child_prefix@, depth, n as int, style@)
            == Seq::<LineView>::empty());
        assert(sub.skip(out@.len() - base).len() == 0);
    }
}

/// Append the lines of one subtree — the node's own label line, then its
/// children — to `out`.
#[verifier::loop_isolation(false)]
fn push_node_lines(
    t: &UsbTree<UsbDevice>,
    node: &PortTree<String>,
    prefix: &String,
    is_last: bool,
    Ghost(depth): Ghost<nat>,
    depth_mod: u8,
    style: &TreeStyle,
    out: &mut Vec<RenderLine>,
)
    requires
        depth >= 1,
        depth_mod == depth % 10,
        depth_mod < 10,
    ensures
        final(out)@.len() == old(out)@.len() + spec_node_lines(
            *t,
            *node,
            prefix@,
            is_last,
            depth,
            style@,
        ).len(),
        forall|j: int| 0 <= j < old(out)@.len() ==> (#[trigger] final(out)@[j]) == old(out)@[j],
        forall|j: int|
            old(out)@.len() <= j < final(out)@.len() ==> (#[trigger] final(out)@[j])@
                == spec_node_lines(*t, *node, prefix@, is_last, depth, style@)[j - old(
                out,
            )@.len()],
    decreases *node, 1nat, 0nat,
{
    let ghost whole = spec_node_lines(*t, *node, prefix@, is_last, depth, style@);
    let ghost base = out@.len() as int;
    match &node.value {
        Option::Some(key) => {
            match t.lookup_key(key) {
                Option::Some(dev) => {
                    let connector: &str = if is_last {
                        style.corner
                    } else {
                        style.branch
                    };
                    let mut line_prefix = prefix.clone();
                    line_prefix.append(connector);
                    let text = dev.to_display_string();
                    out.push(
                        RenderLine {
                            prefix: line_prefix,
                            text,
                            color: depth_mod,
                            paint: true,
                        },
                    );
                    proof {
                        assert(out@[base]@ == whole[0]);
                    }
                },
                Option::None => {},
            }
        },
        Option::None => {},
    }
    let mut child_prefix = prefix.clone();
    if is_last {
        child_prefix.append(style.indent.as_str());
    } else {
        child_prefix.append(style.vertical);
    }
    let ghost own_len = out@.len() - base;
    let ghost pre_child = out@;
    push_child_lines(t, node, &child_prefix, Ghost(depth), depth_mod, style, out);
    proof {
        let sub = spec_node_lines_from(*t, *node, child_prefix@, depth, 0, style@);
        assert(whole =~= whole.take(own_len) + sub);
        assert forall|j: int| base <= j < out@.len() implies (#[trigger] out@[j])@ == whole[j
            - base] by {
            if j - base >= own_len {
                assert(out@[j]@ == sub[j - base - own_len]);
                assert((whole.take(own_len) + sub)[j - base] == sub[j - base - own_len]);
            } else {
                assert(out@[j] == pre_child[j]);
                assert(pre_child[j]@ == whole[0]);
                assert((whole.take(own_len) + sub)[j - base] == whole.take(own_len)[j - base]);
            }
        }
    }
}

/// Deterministic rendering: with coloring off, the rendered text is a
/// function of the index and style alone, so repeated renders of one
/// index are byte-identical.
pub proof fn lemma_render_deterministic(
    t: UsbTree<UsbDevice>,
    sv: StyleView,
    r1: Seq<char>,
    r2: Seq<char>,
)
    requires
        !sv.colored,
        r1 == spec_render_plain(t, sv),
        r2 == spec_render_plain(t, sv),
    ensures
        r1 == r2,
{
}

} // verus!
