//! The tmux window layout format.
//!
//! A layout is `<width>x<height>,<xoff>,<yoff>` followed by its contents:
//! `,<pane id>` for a single pane, `{<layout>,<layout>,...}` for panes side
//! by side (left/right), or `[<layout>,<layout>,...]` for panes stacked
//! (top/down). The parser below is a backtracking recursive-descent parser
//! that reports, like a streaming parser, when the input ended before the
//! grammar could decide.

use vstd::prelude::*;
use vstd::string::StringSliceAdditionalSpecFns;
use crate::decimal::{all_digits, decimal, digits_to_u64, digits_value, is_digit, lemma_decimal_digits};

verus! {

/// The ways a layout can fail to parse.
#[derive(Debug, Clone, Copy, PartialEq, Eq, Structural)]
pub enum LayoutError {
    /// A literal (`x` or `,`) was expected.
    Tag,
    /// A number was expected but the byte is not a digit.
    Digit,
    /// A number does not fit in 64 bits.
    MapRes,
    /// None of the three kinds of contents matched.
    Alt,
}

/// The outcome of running a parser at a position: the position after what
/// it recognised together with the value, an error, or the report that the
/// input ended too early to decide.
#[derive(Debug)]
pub enum Parsed<T> {
    Done(usize, T),
    Error(LayoutError),
    Incomplete,
}

/// The model of [`Parsed`], with the position as an integer.
pub enum SpecParsed<T> {
    Done(int, T),
    Error(LayoutError),
    Incomplete,
}

impl<T: View> View for Parsed<T> {
    type V = SpecParsed<T::V>;

    open spec fn view(&self) -> SpecParsed<T::V> {
        match self {
            Parsed::Done(n, v) => SpecParsed::Done(*n as int, v@),
            Parsed::Error(e) => SpecParsed::Error(*e),
            Parsed::Incomplete => SpecParsed::Incomplete,
        }
    }
}

/// What a layout cell holds.
#[derive(Debug)]
pub enum Container {
    /// A single pane, with its tmux pane id.
    Pane(u64),
    /// Cells side by side.
    LeftRightLayout(Vec<Layout>),
    /// Cells stacked on top of each other.
    TopDownLayout(Vec<Layout>),
}

/// A layout cell: its size and offset in characters, and what it holds.
#[derive(Debug)]
pub struct Layout {
    width: u64,
    height: u64,
    xoff: u64,
    yoff: u64,
    contains: Container,
}

/// The mathematical model of a [`Container`].
pub enum SpecContainer {
    Pane(u64),
    LeftRight(Seq<SpecLayout>),
    TopDown(Seq<SpecLayout>),
}

/// The mathematical model of a [`Layout`].
pub struct SpecLayout {
    pub width: u64,
    pub height: u64,
    pub xoff: u64,
    pub yoff: u64,
    pub contains: SpecContainer,
}

/// The models of the cells `v`, in order.
pub open spec fn layouts_view(v: Seq<Layout>) -> Seq<SpecLayout> {
    Seq::new(v.len(), |k: int| v[k]@)
}

/// The models of the first `n` cells of `v`.
spec fn cells_view(v: &Vec<Layout>, n: nat) -> Seq<SpecLayout>
    decreases v, n,
{
    if n == 0 || n > v@.len() {
        Seq::empty()
    } else {
        cells_view(v, (n - 1) as nat).push(v@[n - 1].view())
    }
}

impl View for Container {
    type V = SpecContainer;

    closed spec fn view(&self) -> SpecContainer
        decreases self, 0nat,
    {
        match self {
            Container::Pane(p) => SpecContainer::Pane(*p),
            Container::LeftRightLayout(v) => SpecContainer::LeftRight(cells_view(v, v@.len())),
            Container::TopDownLayout(v) => SpecContainer::TopDown(cells_view(v, v@.len())),
        }
    }
}

impl View for Layout {
    type V = SpecLayout;

    closed spec fn view(&self) -> SpecLayout
        decreases self, 0nat,
    {
        SpecLayout {
            width: self.width,
            height: self.height,
            xoff: self.xoff,
            yoff: self.yoff,
            contains: self.contains.view(),
        }
    }
}

/* The grammar, as a specification over the input bytes. */

/// The end of the run of digits that starts at `i`.
pub open spec fn digits_end(s: Seq<u8>, i: int) -> int
    decreases s.len() - i,
{
    if i < s.len() && is_digit(s[i as int]) {
        digits_end(s, i + 1)
    } else {
        i
    }
}

/// A literal byte `c` at `i`.
pub open spec fn spec_tag(s: Seq<u8>, i: int, c: u8) -> SpecParsed<()> {
    if i >= s.len() {
        SpecParsed::Incomplete
    } else if s[i as int] == c {
        SpecParsed::Done(i + 1, ())
    } else {
        SpecParsed::Error(LayoutError::Tag)
    }
}

/// A decimal number at `i`: one or more digits, read as a `u64`.
pub open spec fn spec_number(s: Seq<u8>, i: int) -> SpecParsed<u64> {
    if i >= s.len() {
        SpecParsed::Incomplete
    } else if !is_digit(s[i as int]) {
        SpecParsed::Error(LayoutError::Digit)
    } else {
        let j = digits_end(s, i);
        let v = digits_value(s.subrange(i as int, j as int));
        if v <= u64::MAX {
            SpecParsed::Done(j, v as u64)
        } else {
            SpecParsed::Error(LayoutError::MapRes)
        }
    }
}

/// The same failure, for a parser of another type.
pub open spec fn spec_fail<T, U>(p: SpecParsed<T>) -> SpecParsed<U> {
    match p {
        SpecParsed::Error(e) => SpecParsed::Error(e),
        _ => SpecParsed::Incomplete,
    }
}

/// The cell geometry `<width>x<height>,<xoff>,<yoff>` at `i`.
pub open spec fn spec_geometry(s: Seq<u8>, i: int) -> SpecParsed<(u64, u64, u64, u64)> {
    match spec_number(s, i) {
        SpecParsed::Done(i1, w) => match spec_tag(s, i1, 0x78) {
            SpecParsed::Done(i2, _) => match spec_number(s, i2) {
                SpecParsed::Done(i3, h) => match spec_tag(s, i3, 0x2c) {
                    SpecParsed::Done(i4, _) => match spec_number(s, i4) {
                        SpecParsed::Done(i5, x) => match spec_tag(s, i5, 0x2c) {
                            SpecParsed::Done(i6, _) => match spec_number(s, i6) {
                                SpecParsed::Done(i7, y) => SpecParsed::Done(i7, (w, h, x, y)),
                                p => spec_fail(p),
                            },
                            p => spec_fail(p),
                        },
                        p => spec_fail(p),
                    },
                    p => spec_fail(p),
                },
                p => spec_fail(p),
            },
            p => spec_fail(p),
        },
        p => spec_fail(p),
    }
}

/// A layout cell at `i`: its geometry followed by its contents.
pub open spec fn spec_layout(s: Seq<u8>, i: int) -> SpecParsed<SpecLayout>
    decreases s.len() - i, 0int,
{
    match spec_geometry(s, i) {
        SpecParsed::Done(j, (w, h, x, y)) => {
            if i < j <= s.len() {
                match spec_container(s, j) {
                    SpecParsed::Done(k, c) => SpecParsed::Done(
                        k,
                        SpecLayout { width: w, height: h, xoff: x, yoff: y, contains: c },
                    ),
                    p => spec_fail(p),
                }
            } else {
                SpecParsed::Incomplete
            }
        },
        p => spec_fail(p),
    }
}

/// The contents of a cell at `i`: `,<pane id>`, `{<cells>}` or `[<cells>]`.
/// The first byte decides which; a failure of the chosen form is reported
/// as `Alt`, except that running out of input is reported as such.
pub open spec fn spec_container(s: Seq<u8>, i: int) -> SpecParsed<SpecContainer>
    decreases s.len() - i, 0int,
{
    if i >= s.len() {
        SpecParsed::Incomplete
    } else if s[i as int] == 0x7b || s[i as int] == 0x5b {
        let close: u8 = if s[i as int] == 0x7b { 0x7d } else { 0x5d };
        match spec_cells(s, i + 1) {
            Some((k, cells)) => {
                if k >= s.len() {
                    SpecParsed::Incomplete
                } else if s[k as int] == close {
                    SpecParsed::Done(
                        k + 1,
                        if s[i as int] == 0x7b {
                            SpecContainer::LeftRight(cells)
                        } else {
                            SpecContainer::TopDown(cells)
                        },
                    )
                } else {
                    SpecParsed::Error(LayoutError::Alt)
                }
            },
            None => SpecParsed::Error(LayoutError::Alt),
        }
    } else if s[i as int] == 0x2c {
        match spec_number(s, i + 1) {
            SpecParsed::Done(j, id) => SpecParsed::Done(j, SpecContainer::Pane(id)),
            SpecParsed::Error(_) => SpecParsed::Error(LayoutError::Alt),
            SpecParsed::Incomplete => SpecParsed::Incomplete,
        }
    } else {
        SpecParsed::Error(LayoutError::Alt)
    }
}

/// A non-empty list of cells separated by `,` at `i`. The first cell must
/// parse; the list then grows while a `,` and a whole cell follow, and
/// stops before a `,` that is not followed by one.
pub open spec fn spec_cells(s: Seq<u8>, i: int) -> Option<(int, Seq<SpecLayout>)>
    decreases s.len() - i, 1int,
{
    if i > s.len() {
        None
    } else {
        match spec_layout(s, i) {
            SpecParsed::Done(j, l) => {
                if i < j <= s.len() {
                    Some(spec_more_cells(s, j, seq![l]))
                } else {
                    None
                }
            },
            _ => None,
        }
    }
}

/// The rest of a list of cells from `i`, after the cells `acc`.
pub open spec fn spec_more_cells(s: Seq<u8>, i: int, acc: Seq<SpecLayout>) -> (int, Seq<SpecLayout>)
    decreases s.len() - i, 0int,
{
    if i < s.len() && s[i as int] == 0x2c {
        match spec_layout(s, i + 1) {
            SpecParsed::Done(j, l) => {
                if i + 1 < j <= s.len() {
                    spec_more_cells(s, j, acc.push(l))
                } else {
                    (i, acc)
                }
            },
            _ => (i, acc),
        }
    } else {
        (i, acc)
    }
}

/* Facts about the grammar. */

proof fn lemma_digits_end(s: Seq<u8>, i: int)
    requires
        0 <= i <= s.len(),
    ensures
        i <= digits_end(s, i) <= s.len(),
        all_digits(s.subrange(i, digits_end(s, i))),
        digits_end(s, i) < s.len() ==> !is_digit(s[digits_end(s, i)]),
    decreases s.len() - i,
{
    if i < s.len() && is_digit(s[i]) {
        lemma_digits_end(s, i + 1);
        let d = digits_end(s, i);
        assert forall|k: int| 0 <= k < d - i implies is_digit(#[trigger] s.subrange(i, d)[k]) by {
            if k > 0 {
                assert(s.subrange(i, d)[k] == s.subrange(i + 1, d)[k - 1]);
            }
        }
    }
}

proof fn lemma_number_bounds(s: Seq<u8>, i: int)
    requires
        0 <= i <= s.len(),
    ensures
        spec_number(s, i) matches SpecParsed::Done(j, _) ==> i < j <= s.len(),
{
    lemma_digits_end(s, i);
    if i < s.len() && is_digit(s[i]) {
        lemma_digits_end(s, i + 1);
    }
}

proof fn lemma_geometry_bounds(s: Seq<u8>, i: int)
    requires
        0 <= i <= s.len(),
    ensures
        spec_geometry(s, i) matches SpecParsed::Done(j, _) ==> i < j <= s.len(),
{
    lemma_number_bounds(s, i);
    if let SpecParsed::Done(i1, _) = spec_number(s, i) {
        if let SpecParsed::Done(i2, _) = spec_tag(s, i1, 0x78) {
            lemma_number_bounds(s, i2);
            if let SpecParsed::Done(i3, _) = spec_number(s, i2) {
                if let SpecParsed::Done(i4, _) = spec_tag(s, i3, 0x2c) {
                    lemma_number_bounds(s, i4);
                    if let SpecParsed::Done(i5, _) = spec_number(s, i4) {
                        if let SpecParsed::Done(i6, _) = spec_tag(s, i5, 0x2c) {
                            lemma_number_bounds(s, i6);
                        }
                    }
                }
            }
        }
    }
}

/* The parser. */

fn number(s: &[u8], i: usize) -> (r: Parsed<u64>)
    requires
        i <= s@.len(),
    ensures
        r@ == spec_number(s@, i as int),
{
    if i >= s.len() {
        return Parsed::Incomplete;
    }
    if !(0x30 <= s[i] && s[i] <= 0x39) {
        return Parsed::Error(LayoutError::Digit);
    }
    let mut j: usize = i;
    while j < s.len() && 0x30 <= s[j] && s[j] <= 0x39
        invariant
            i <= j <= s@.len(),
            digits_end(s@, j as int) == digits_end(s@, i as int),
        decreases s@.len() - j,
    {
        j = j + 1;
    }
    proof {
        lemma_digits_end(s@, i as int);
    }
    match digits_to_u64(s, i, j) {
        Some(v) => Parsed::Done(j, v),
        None => Parsed::Error(LayoutError::MapRes),
    }
}

fn tag(s: &[u8], i: usize, c: u8) -> (r: Parsed<()>)
    requires
        i <= s@.len(),
    ensures
        r@ == spec_tag(s@, i as int, c),
{
    if i >= s.len() {
        Parsed::Incomplete
    } else if s[i] == c {
        Parsed::Done(i + 1, ())
    } else {
        Parsed::Error(LayoutError::Tag)
    }
}

fn geometry(s: &[u8], i: usize) -> (r: Parsed<(u64, u64, u64, u64)>)
    requires
        i <= s@.len(),
    ensures
        r@ == spec_geometry(s@, i as int),
        r matches Parsed::Done(j, _) ==> i < j <= s@.len(),
{
    proof {
        lemma_geometry_bounds(s@, i as int);
        lemma_number_bounds(s@, i as int);
    }
    let (i1, w) = match number(s, i) {
        Parsed::Done(j, v) => (j, v),
        Parsed::Error(e) => return Parsed::Error(e),
        Parsed::Incomplete => return Parsed::Incomplete,
    };
    let i2 = match tag(s, i1, 0x78) {
        Parsed::Done(j, _) => j,
        Parsed::Error(e) => return Parsed::Error(e),
        Parsed::Incomplete => return Parsed::Incomplete,
    };
    proof {
        lemma_number_bounds(s@, i2 as int);
    }
    let (i3, h) = match number(s, i2) {
        Parsed::Done(j, v) => (j, v),
        Parsed::Error(e) => return Parsed::Error(e),
        Parsed::Incomplete => return Parsed::Incomplete,
    };
    let i4 = match tag(s, i3, 0x2c) {
        Parsed::Done(j, _) => j,
        Parsed::Error(e) => return Parsed::Error(e),
        Parsed::Incomplete => return Parsed::Incomplete,
    };
    proof {
        lemma_number_bounds(s@, i4 as int);
    }
    let (i5, x) = match number(s, i4) {
        Parsed::Done(j, v) => (j, v),
        Parsed::Error(e) => return Parsed::Error(e),
        Parsed::Incomplete => return Parsed::Incomplete,
    };
    let i6 = match tag(s, i5, 0x2c) {
        Parsed::Done(j, _) => j,
        Parsed::Error(e) => return Parsed::Error(e),
        Parsed::Incomplete => return Parsed::Incomplete,
    };
    proof {
        lemma_number_bounds(s@, i6 as int);
    }
    match number(s, i6) {
        Parsed::Done(i7, y) => Parsed::Done(i7, (w, h, x, y)),
        Parsed::Error(e) => Parsed::Error(e),
        Parsed::Incomplete => Parsed::Incomplete,
    }
}

proof fn lemma_cells_view_prefix(v: &Vec<Layout>, n: nat)
    requires
        n <= v@.len(),
    ensures
        cells_view(v, n) =~= layouts_view(v@.take(n as int)),
    decreases n,
{
    if n > 0 {
        lemma_cells_view_prefix(v, (n - 1) as nat);
        assert(layouts_view(v@.take(n as int)) =~= layouts_view(v@.take(n - 1)).push(v@[n - 1]@));
    }
}

/// The model of a split is the models of its cells, in order.
pub proof fn lemma_split_view(v: Vec<Layout>, left_right: bool)
    ensures
        left_right ==> Container::LeftRightLayout(v)@ == SpecContainer::LeftRight(layouts_view(v@)),
        !left_right ==> Container::TopDownLayout(v)@ == SpecContainer::TopDown(layouts_view(v@)),
{
    lemma_cells_view_prefix(&v, v@.len());
    assert(v@.take(v@.len() as int) =~= v@);
}

/// Runs the cell parser at `i` of `s`.
pub fn layout_at(s: &[u8], i: usize) -> (r: Parsed<Layout>)
    requires
        i <= s@.len(),
    ensures
        r@ == spec_layout(s@, i as int),
    decreases s@.len() - i, 0int,
{
    match geometry(s, i) {
        Parsed::Done(j, (w, h, x, y)) => match container_at(s, j) {
            Parsed::Done(k, c) => {
                let l = Layout { width: w, height: h, xoff: x, yoff: y, contains: c };
                Parsed::Done(k, l)
            },
            Parsed::Error(e) => Parsed::Error(e),
            Parsed::Incomplete => Parsed::Incomplete,
        },
        Parsed::Error(e) => Parsed::Error(e),
        Parsed::Incomplete => Parsed::Incomplete,
    }
}

fn container_at(s: &[u8], i: usize) -> (r: Parsed<Container>)
    requires
        i <= s@.len(),
    ensures
        r@ == spec_container(s@, i as int),
    decreases s@.len() - i, 0int,
{
    if i >= s.len() {
        Parsed::Incomplete
    } else if s[i] == 0x7b || s[i] == 0x5b {
        let left_right = s[i] == 0x7b;
        let close: u8 = if left_right { 0x7d } else { 0x5d };
        match cells_at(s, i + 1) {
            Some((k, cells)) => {
                if k >= s.len() {
                    Parsed::Incomplete
                } else if s[k] == close {
                    proof {
                        lemma_split_view(cells, left_right);
                    }
                    if left_right {
                        Parsed::Done(k + 1, Container::LeftRightLayout(cells))
                    } else {
                        Parsed::Done(k + 1, Container::TopDownLayout(cells))
                    }
                } else {
                    Parsed::Error(LayoutError::Alt)
                }
            },
            None => Parsed::Error(LayoutError::Alt),
        }
    } else if s[i] == 0x2c {
        match number(s, i + 1) {
            Parsed::Done(j, id) => Parsed::Done(j, Container::Pane(id)),
            Parsed::Error(_) => Parsed::Error(LayoutError::Alt),
            Parsed::Incomplete => Parsed::Incomplete,
        }
    } else {
        Parsed::Error(LayoutError::Alt)
    }
}

fn cells_at(s: &[u8], i: usize) -> (r: Option<(usize, Vec<Layout>)>)
    requires
        i <= s@.len(),
    ensures
        match r {
            Some((k, v)) => spec_cells(s@, i as int) == Some((k as int, layouts_view(v@))),
            None => spec_cells(s@, i as int) is None,
        },
    decreases s@.len() - i, 1int,
{
    let (mut pos, first) = match layout_at(s, i) {
        Parsed::Done(j, l) => {
            if i < j && j <= s.len() {
                (j, l)
            } else {
                return None;
            }
        },
        _ => return None,
    };
    let mut cells: Vec<Layout> = Vec::new();
    cells.push(first);
    assert(layouts_view(cells@) =~= seq![first@]);
    while pos < s.len() && s[pos] == 0x2c
        invariant
            i < pos <= s@.len(),
            spec_cells(s@, i as int) == Some(spec_more_cells(s@, pos as int, layouts_view(cells@))),
        decreases s@.len() - pos,
    {
        match layout_at(s, pos + 1) {
            Parsed::Done(j, l) => {
                if pos + 1 < j && j <= s.len() {
                    let ghost old_cells = layouts_view(cells@);
                    cells.push(l);
                    assert(layouts_view(cells@) =~= old_cells.push(l@));
                    pos = j;
                } else {
                    return Some((pos, cells));
                }
            },
            _ => return Some((pos, cells)),
        }
    }
    Some((pos, cells))
}

impl Layout {
    /// Width of the cell, in characters.
    pub fn width(&self) -> (r: u64)
        ensures
            r == self@.width,
    {
        self.width
    }

    /// Height of the cell, in characters.
    pub fn height(&self) -> (r: u64)
        ensures
            r == self@.height,
    {
        self.height
    }

    /// Horizontal offset of the cell, in characters.
    pub fn xoff(&self) -> (r: u64)
        ensures
            r == self@.xoff,
    {
        self.xoff
    }

    /// Vertical offset of the cell, in characters.
    pub fn yoff(&self) -> (r: u64)
        ensures
            r == self@.yoff,
    {
        self.yoff
    }

    /// What the cell holds.
    pub fn contains(&self) -> (r: &Container)
        ensures
            r@ == self@.contains,
    {
        &self.contains
    }

    /// Parses a layout from the start of `layout_bytes`, ignoring whatever
    /// follows it. Input that ends before the grammar can decide is left out:
    /// [`layout`] reports it as `Incomplete`.
    pub fn parse(layout_bytes: &str) -> (r: Result<Layout, LayoutError>)
        requires
            !(spec_layout(layout_bytes.spec_bytes(), 0) is Incomplete),
        ensures
            match spec_layout(layout_bytes.spec_bytes(), 0) {
                SpecParsed::Done(_, l) => r matches Ok(v) && v@ == l,
                SpecParsed::Error(e) => r == Err::<Layout, LayoutError>(e),
                SpecParsed::Incomplete => false,
            },
    {
        match layout_at(layout_bytes.as_bytes(), 0) {
            Parsed::Done(_, l) => Ok(l),
            Parsed::Error(e) => Err(e),
            Parsed::Incomplete => Err(LayoutError::Alt),
        }
    }
}

/// Runs the layout parser on `input`: the position after the layout and
/// the layout, an error, or `Incomplete` when the input ended too early.
pub fn layout(input: &str) -> (r: Parsed<Layout>)
    ensures
        r@ == spec_layout(input.spec_bytes(), 0),
{
    layout_at(input.as_bytes(), 0)
}

/* Laws. */

proof fn lemma_digits_end_exact(s: Seq<u8>, i: int, j: int)
    requires
        0 <= i <= j <= s.len(),
        forall|k: int| i <= k < j ==> is_digit(#[trigger] s[k]),
        j == s.len() || !is_digit(s[j]),
    ensures
        digits_end(s, i) == j,
    decreases j - i,
{
    if i < j {
        lemma_digits_end_exact(s, i + 1, j);
    }
}

/// A number written in decimal at `i`, followed by the end of the input or
/// by a byte that is not a digit, is read back as that number.
pub proof fn lemma_number_decimal(s: Seq<u8>, i: int, n: u64)
    requires
        0 <= i,
        i + decimal(n as nat).len() <= s.len(),
        s.subrange(i, i + decimal(n as nat).len()) == decimal(n as nat),
        i + decimal(n as nat).len() == s.len() || !is_digit(s[i + decimal(n as nat).len()]),
    ensures
        spec_number(s, i) == SpecParsed::Done(i + decimal(n as nat).len(), n),
{
    let d = decimal(n as nat);
    lemma_decimal_digits(n as nat);
    assert forall|k: int| i <= k < i + d.len() implies is_digit(#[trigger] s[k]) by {
        assert(s[k] == s.subrange(i, i + d.len())[k - i]);
    }
    assert(s[i] == d[0]);
    lemma_digits_end_exact(s, i, i + d.len());
}

/// The cell geometry `<width>x<height>,<xoff>,<yoff>` in decimal.
pub open spec fn geometry_text(w: u64, h: u64, x: u64, y: u64) -> Seq<u8> {
    decimal(w as nat) + seq![0x78] + decimal(h as nat) + seq![0x2c] + decimal(x as nat) + seq![0x2c]
        + decimal(y as nat)
}

/// `s` holds `t` at `i`, followed by the end or by a byte that is not a digit.
pub open spec fn holds_at(s: Seq<u8>, i: int, t: Seq<u8>) -> bool {
    &&& 0 <= i
    &&& i + t.len() <= s.len()
    &&& s.subrange(i, i + t.len()) == t
    &&& (i + t.len() == s.len() || !is_digit(s[i + t.len()]))
}

proof fn lemma_geometry_parses(s: Seq<u8>, i: int, w: u64, h: u64, x: u64, y: u64)
    requires
        holds_at(s, i, geometry_text(w, h, x, y)),
    ensures
        spec_geometry(s, i) == SpecParsed::Done(i + geometry_text(w, h, x, y).len(), (w, h, x, y)),
{
    let dw = decimal(w as nat);
    let dh = decimal(h as nat);
    let dx = decimal(x as nat);
    let dy = decimal(y as nat);
    let t = geometry_text(w, h, x, y);
    let i1 = i + dw.len();
    let i2 = i1 + 1;
    let i3 = i2 + dh.len();
    let i4 = i3 + 1;
    let i5 = i4 + dx.len();
    let i6 = i5 + 1;
    let i7 = i6 + dy.len();
    assert(i7 == i + t.len());
    let u = s.subrange(i, i + t.len());
    assert(s.subrange(i, i1) =~= dw) by {
        assert forall|k: int| 0 <= k < dw.len() implies s.subrange(i, i1)[k] == dw[k] by {
            assert(s[i + k] == u[k]);
        }
    }
    assert(s[i1] == u[i1 - i]);
    assert(s.subrange(i2, i3) =~= dh) by {
        assert forall|k: int| 0 <= k < dh.len() implies s.subrange(i2, i3)[k] == dh[k] by {
            assert(s[i2 + k] == u[i2 - i + k]);
        }
    }
    assert(s[i3] == u[i3 - i]);
    assert(s.subrange(i4, i5) =~= dx) by {
        assert forall|k: int| 0 <= k < dx.len() implies s.subrange(i4, i5)[k] == dx[k] by {
            assert(s[i4 + k] == u[i4 - i + k]);
        }
    }
    assert(s[i5] == u[i5 - i]);
    assert(s.subrange(i6, i7) =~= dy) by {
        assert forall|k: int| 0 <= k < dy.len() implies s.subrange(i6, i7)[k] == dy[k] by {
            assert(s[i6 + k] == u[i6 - i + k]);
        }
    }
    lemma_number_decimal(s, i, w);
    lemma_number_decimal(s, i2, h);
    lemma_number_decimal(s, i4, x);
    lemma_number_decimal(s, i6, y);
}

/// `s` holds `t` at `i`.
pub open spec fn has_at(s: Seq<u8>, i: int, t: Seq<u8>) -> bool {
    0 <= i && i + t.len() <= s.len() && s.subrange(i, i + t.len()) == t
}

proof fn lemma_has_at_split(s: Seq<u8>, i: int, a: Seq<u8>, b: Seq<u8>)
    requires
        has_at(s, i, a + b),
    ensures
        has_at(s, i, a),
        has_at(s, i + a.len(), b),
        forall|k: int| 0 <= k < b.len() ==> s[i + a.len() + k] == #[trigger] b[k],
{
    let u = s.subrange(i, i + (a + b).len());
    assert(s.subrange(i, i + a.len()) =~= a) by {
        assert forall|k: int| 0 <= k < a.len() implies s.subrange(i, i + a.len())[k] == a[k] by {
            assert(s[i + k] == u[k]);
            assert(u[k] == (a + b)[k]);
        }
    }
    assert(s.subrange(i + a.len(), i + a.len() + b.len()) =~= b) by {
        assert forall|k: int| 0 <= k < b.len() implies s.subrange(i + a.len(), i + a.len() + b.len())[k]
            == b[k] by {
            assert(s[i + a.len() + k] == u[a.len() + k]);
            assert(u[a.len() + k] == (a + b)[a.len() + k]);
        }
    }
    assert forall|k: int| 0 <= k < b.len() implies s[i + a.len() + k] == #[trigger] b[k] by {
        assert(s[i + a.len() + k] == u[a.len() + k]);
        assert(u[a.len() + k] == (a + b)[a.len() + k]);
    }
}

/* Writing layouts in tmux's format. */

/// A layout written in tmux's format: geometry, then contents.
pub open spec fn layout_text(l: SpecLayout) -> Seq<u8>
    decreases l,
{
    geometry_text(l.width, l.height, l.xoff, l.yoff) + container_text(l.contains)
}

/// Contents written in tmux's format: `,<pane>`, `{<cells>}` or `[<cells>]`.
pub open spec fn container_text(c: SpecContainer) -> Seq<u8>
    decreases c,
{
    match c {
        SpecContainer::Pane(id) => seq![0x2c] + decimal(id as nat),
        SpecContainer::LeftRight(cs) => seq![0x7b] + cells_text(cs) + seq![0x7d],
        SpecContainer::TopDown(cs) => seq![0x5b] + cells_text(cs) + seq![0x5d],
    }
}

/// Cells written one after the other, separated by `,`.
pub open spec fn cells_text(cs: Seq<SpecLayout>) -> Seq<u8>
    decreases cs,
{
    if cs.len() == 0 {
        seq![]
    } else {
        layout_text(cs[0]) + more_cells_text(cs.subrange(1, cs.len() as int))
    }
}

/// Cells written one after the other, each preceded by `,`.
pub open spec fn more_cells_text(cs: Seq<SpecLayout>) -> Seq<u8>
    decreases cs,
{
    if cs.len() == 0 {
        seq![]
    } else {
        seq![0x2c] + layout_text(cs[0]) + more_cells_text(cs.subrange(1, cs.len() as int))
    }
}

/// Every split in the layout has at least one cell (as tmux writes them).
pub open spec fn well_formed(l: SpecLayout) -> bool
    decreases l,
{
    well_formed_container(l.contains)
}

/// Every split in the contents has at least one cell.
pub open spec fn well_formed_container(c: SpecContainer) -> bool
    decreases c,
{
    match c {
        SpecContainer::Pane(_) => true,
        SpecContainer::LeftRight(cs) => cs.len() > 0 && well_formed_cells(cs),
        SpecContainer::TopDown(cs) => cs.len() > 0 && well_formed_cells(cs),
    }
}

/// Every cell of `cs` is well formed.
pub open spec fn well_formed_cells(cs: Seq<SpecLayout>) -> bool
    decreases cs,
{
    cs.len() > 0 ==> well_formed(cs[0]) && well_formed_cells(cs.subrange(1, cs.len() as int))
}

pub proof fn lemma_text_starts_with_digit(l: SpecLayout)
    ensures
        layout_text(l).len() > 0,
        is_digit(layout_text(l)[0]),
{
    lemma_decimal_digits(l.width as nat);
    assert(layout_text(l)[0] == decimal(l.width as nat)[0]);
}

proof fn lemma_layout_text_parses(s: Seq<u8>, i: int, l: SpecLayout)
    requires
        well_formed(l),
        holds_at(s, i, layout_text(l)),
    ensures
        spec_layout(s, i) == SpecParsed::Done(i + layout_text(l).len(), l),
    decreases l, 2int,
{
    let g = geometry_text(l.width, l.height, l.xoff, l.yoff);
    let c = container_text(l.contains);
    lemma_has_at_split(s, i, g, c);
    let j = i + g.len();
    assert(c[0] == 0x2c || c[0] == 0x7b || c[0] == 0x5b);
    assert(s[j] == c[0]);
    lemma_geometry_parses(s, i, l.width, l.height, l.xoff, l.yoff);
    lemma_container_text_parses(s, j, l.contains);
    lemma_geometry_bounds(s, i);
}

proof fn lemma_container_text_parses(s: Seq<u8>, i: int, c: SpecContainer)
    requires
        well_formed_container(c),
        holds_at(s, i, container_text(c)),
    ensures
        spec_container(s, i) == SpecParsed::Done(i + container_text(c).len(), c),
    decreases c, 1int,
{
    let t = container_text(c);
    match c {
        SpecContainer::Pane(id) => {
            lemma_has_at_split(s, i, seq![0x2c], decimal(id as nat));
            assert(s[i] == 0x2c) by {
                assert(s.subrange(i, i + 1)[0] == s[i]);
            }
            lemma_number_decimal(s, i + 1, id);
        },
        SpecContainer::LeftRight(cs) => {
            lemma_bracketed_parses(s, i, cs, 0x7b, 0x7d);
            assert(spec_container(s, i) == SpecParsed::Done(
                i + t.len(),
                SpecContainer::LeftRight(cs),
            ));
        },
        SpecContainer::TopDown(cs) => {
            lemma_bracketed_parses(s, i, cs, 0x5b, 0x5d);
            assert(spec_container(s, i) == SpecParsed::Done(
                i + t.len(),
                SpecContainer::TopDown(cs),
            ));
        },
    }
}

proof fn lemma_bracketed_parses(s: Seq<u8>, i: int, cs: Seq<SpecLayout>, open: u8, close: u8)
    requires
        cs.len() > 0,
        well_formed_cells(cs),
        has_at(s, i, seq![open] + cells_text(cs) + seq![close]),
        close != 0x2c,
        !is_digit(close),
    ensures
        s[i] == open,
        spec_cells(s, i + 1) == Some((i + 1 + cells_text(cs).len(), cs)),
        s[i + 1 + cells_text(cs).len()] == close,
        i + 2 + cells_text(cs).len() <= s.len(),
    decreases cs, 0int,
{
    let body = cells_text(cs);
    lemma_has_at_split(s, i, seq![open] + body, seq![close]);
    lemma_has_at_split(s, i, seq![open], body);
    assert(s[i] == open) by {
        assert(s.subrange(i, i + 1)[0] == s[i]);
    }
    let k = i + 1 + body.len();
    assert(s[k] == close) by {
        assert(s.subrange(k, k + 1)[0] == s[k]);
    }
    let first = layout_text(cs[0]);
    let more = more_cells_text(cs.subrange(1, cs.len() as int));
    lemma_has_at_split(s, i + 1, first, more);
    let j = i + 1 + first.len();
    if more.len() > 0 {
        assert(s[j] == more[0]);
    } else {
        assert(j == k);
    }
    lemma_layout_text_parses(s, i + 1, cs[0]);
    lemma_more_text_parses(s, j, seq![cs[0]], cs.subrange(1, cs.len() as int), close);
    assert(seq![cs[0]] + cs.subrange(1, cs.len() as int) =~= cs);
}

proof fn lemma_more_text_parses(s: Seq<u8>, i: int, acc: Seq<SpecLayout>, cs: Seq<SpecLayout>, close: u8)
    requires
        well_formed_cells(cs),
        has_at(s, i, more_cells_text(cs)),
        i + more_cells_text(cs).len() < s.len(),
        s[i + more_cells_text(cs).len()] == close,
        close != 0x2c,
        !is_digit(close),
    ensures
        spec_more_cells(s, i, acc) == (i + more_cells_text(cs).len(), acc + cs),
    decreases cs, 0int,
{
    if cs.len() == 0 {
        assert(acc + cs =~= acc);
    } else {
        let t = layout_text(cs[0]);
        let r = more_cells_text(cs.subrange(1, cs.len() as int));
        assert(more_cells_text(cs) == seq![0x2c] + t + r);
        lemma_has_at_split(s, i, seq![0x2c] + t, r);
        lemma_has_at_split(s, i, seq![0x2c], t);
        assert(s[i] == 0x2c) by {
            assert(s.subrange(i, i + 1)[0] == s[i]);
        }
        let j = i + 1 + t.len();
        if r.len() > 0 {
            assert(s[j] == r[0]);
        }
        lemma_layout_text_parses(s, i + 1, cs[0]);
        lemma_text_starts_with_digit(cs[0]);
        lemma_more_text_parses(s, j, acc.push(cs[0]), cs.subrange(1, cs.len() as int), close);
        assert(acc.push(cs[0]) + cs.subrange(1, cs.len() as int) =~= acc + cs);
    }
}

/// A layout written in tmux's format parses back to that layout, when it is
/// followed by nothing or by a byte that is not a digit: `{...}` holds cells
/// side by side and `[...]` stacked cells, in the order written.
pub proof fn lemma_layout_round_trip(l: SpecLayout, rest: Seq<u8>)
    requires
        well_formed(l),
        rest.len() == 0 || !is_digit(rest[0]),
    ensures
        spec_layout(layout_text(l) + rest, 0) == SpecParsed::Done(layout_text(l).len() as int, l),
{
    let t = layout_text(l);
    let s = t + rest;
    assert(s.subrange(0, t.len() as int) =~= t);
    if rest.len() > 0 {
        assert(s[t.len() as int] == rest[0]);
    }
    lemma_layout_text_parses(s, 0, l);
}

proof fn lemma_decimal_word(n: nat)
    ensures
        crate::text::is_word(decimal(n)),
{
    lemma_decimal_digits(n);
    assert forall|i: int| 0 <= i < decimal(n).len() implies #[trigger] decimal(n)[i] < 0x80 && decimal(
        n,
    )[i] != 0x20 by {
        assert(is_digit(decimal(n)[i]));
    }
}

proof fn lemma_word_concat(a: Seq<u8>, b: Seq<u8>)
    requires
        crate::text::is_word(a),
        crate::text::is_word(b),
    ensures
        crate::text::is_word(a + b),
{
    assert forall|i: int| 0 <= i < (a + b).len() implies #[trigger] (a + b)[i] < 0x80 && (a + b)[i]
        != 0x20 by {
        if i < a.len() {
            assert((a + b)[i] == a[i]);
        } else {
            assert((a + b)[i] == b[i - a.len()]);
        }
    }
}

/// A layout written in tmux's format is ASCII without spaces.
pub proof fn lemma_layout_text_word(l: SpecLayout)
    ensures
        crate::text::is_word(layout_text(l)),
    decreases l, 2int,
{
    lemma_decimal_word(l.width as nat);
    lemma_decimal_word(l.height as nat);
    lemma_decimal_word(l.xoff as nat);
    lemma_decimal_word(l.yoff as nat);
    let g = geometry_text(l.width, l.height, l.xoff, l.yoff);
    lemma_word_concat(decimal(l.width as nat), seq![0x78]);
    lemma_word_concat(decimal(l.width as nat) + seq![0x78], decimal(l.height as nat));
    lemma_word_concat(decimal(l.width as nat) + seq![0x78] + decimal(l.height as nat), seq![0x2c]);
    lemma_word_concat(
        decimal(l.width as nat) + seq![0x78] + decimal(l.height as nat) + seq![0x2c],
        decimal(l.xoff as nat),
    );
    lemma_word_concat(
        decimal(l.width as nat) + seq![0x78] + decimal(l.height as nat) + seq![0x2c] + decimal(
            l.xoff as nat,
        ),
        seq![0x2c],
    );
    lemma_word_concat(
        decimal(l.width as nat) + seq![0x78] + decimal(l.height as nat) + seq![0x2c] + decimal(
            l.xoff as nat,
        ) + seq![0x2c],
        decimal(l.yoff as nat),
    );
    lemma_container_text_word(l.contains);
    lemma_word_concat(g, container_text(l.contains));
}

proof fn lemma_container_text_word(c: SpecContainer)
    ensures
        crate::text::is_word(container_text(c)),
    decreases c, 1int,
{
    match c {
        SpecContainer::Pane(id) => {
            lemma_decimal_word(id as nat);
            lemma_word_concat(seq![0x2c], decimal(id as nat));
        },
        SpecContainer::LeftRight(cs) => {
            lemma_cells_text_word(cs);
            lemma_word_concat(seq![0x7b], cells_text(cs));
            lemma_word_concat(seq![0x7b] + cells_text(cs), seq![0x7d]);
        },
        SpecContainer::TopDown(cs) => {
            lemma_cells_text_word(cs);
            lemma_word_concat(seq![0x5b], cells_text(cs));
            lemma_word_concat(seq![0x5b] + cells_text(cs), seq![0x5d]);
        },
    }
}

proof fn lemma_cells_text_word(cs: Seq<SpecLayout>)
    ensures
        crate::text::is_word(cells_text(cs)),
        crate::text::is_word(more_cells_text(cs)),
    decreases cs, 0int,
{
    if cs.len() > 0 {
        lemma_layout_text_word(cs[0]);
        lemma_cells_text_word(cs.subrange(1, cs.len() as int));
        let r = more_cells_text(cs.subrange(1, cs.len() as int));
        lemma_word_concat(layout_text(cs[0]), r);
        lemma_word_concat(seq![0x2c], layout_text(cs[0]));
        lemma_word_concat(seq![0x2c] + layout_text(cs[0]), r);
    }
}

} // verus!
