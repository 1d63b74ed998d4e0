//! Cutting a matrix product into 32 by 32 tile commands.

use super::command::{
    Matmul32x32Command, MATMUL32X32_FLAG_ACCUMULATE, MATMUL32X32_FLAG_CLEAR_OUTPUT,
    MATMUL32X32_FLAG_LAST_K_TILE,
};
use super::command;
use super::error::SerialProtocolError;
use super::frame::{SerialFrame, WireFrame};
use super::opcode::SerialOpcode;
use crate::text;
use crate::text::{push_decimal, push_text};
use vstd::arithmetic::div_mod::lemma_fundamental_div_mod_converse;
use vstd::prelude::*;

verus! {

/// Where the three matrices lie on the device: byte offsets, row strides in elements, and
/// the size of an element in bytes.
#[derive(Debug, Clone, Copy, PartialEq, Eq, Structural)]
pub struct MatmulMemoryLayout {
    pub a_base: u64,
    pub b_base: u64,
    pub out_base: u64,
    pub a_row_stride: usize,
    pub b_row_stride: usize,
    pub out_row_stride: usize,
    pub elem_size_bytes: u64,
}

/// The sentence "`what` `have` is smaller than `of` `need`".
pub open spec fn too_small(what: Seq<char>, have: usize, of: Seq<char>, need: usize) -> Seq<char> {
    what + " "@ + text::decimal(have as nat) + " is smaller than "@ + of + " "@ + text::decimal(
        need as nat,
    )
}

/// Why a layout cannot hold operands with `k` and `n` columns, if it cannot.
pub open spec fn layout_fault(layout: MatmulMemoryLayout, k: usize, n: usize) -> Option<
    Seq<char>,
> {
    if layout.elem_size_bytes == 0 {
        Some("elem_size_bytes must be greater than zero"@)
    } else if layout.a_row_stride < k {
        Some(too_small("a_row_stride"@, layout.a_row_stride, "k"@, k))
    } else if layout.b_row_stride < n {
        Some(too_small("b_row_stride"@, layout.b_row_stride, "n"@, n))
    } else if layout.out_row_stride < n {
        Some(too_small("out_row_stride"@, layout.out_row_stride, "n"@, n))
    } else {
        None
    }
}

/// Whether `e` refuses a layout for the reason `why`.
pub open spec fn refuses_layout(e: SerialProtocolError, why: Seq<char>) -> bool {
    e matches SerialProtocolError::InvalidMatmulLayout { reason } && reason@ == why
}

/// Builds the sentence of a stride that is too small.
fn too_small_text(what: &str, have: usize, of: &str, need: usize) -> (sentence: String)
    ensures
        sentence@ == too_small(what@, have, of@, need),
{
    let mut sentence = what.to_owned();
    push_text(&mut sentence, " ");
    push_decimal(&mut sentence, have as u64);
    push_text(&mut sentence, " is smaller than ");
    push_text(&mut sentence, of);
    push_text(&mut sentence, " ");
    push_decimal(&mut sentence, need as u64);
    sentence
}

impl MatmulMemoryLayout {
    /// The layout without gaps between rows.
    pub fn row_major(
        m: usize,
        k: usize,
        n: usize,
        a_base: u64,
        b_base: u64,
        out_base: u64,
        elem_size_bytes: u64,
    ) -> (layout: Self)
        ensures
            layout == (MatmulMemoryLayout {
                a_base,
                b_base,
                out_base,
                a_row_stride: k,
                b_row_stride: n,
                out_row_stride: n,
                elem_size_bytes,
            }),
    {
        MatmulMemoryLayout {
            a_base,
            b_base,
            out_base,
            a_row_stride: k,
            b_row_stride: n,
            out_row_stride: n,
            elem_size_bytes,
        }
    }

    /// Checks that the layout can hold operands with `k` and `n` columns.
    pub fn validate(&self, k: usize, n: usize) -> (result: Result<(), SerialProtocolError>)
        ensures
            match layout_fault(*self, k, n) {
                None => result is Ok,
                Some(why) => result matches Err(e) && refuses_layout(e, why),
            },
    {
        if self.elem_size_bytes == 0 {
            return Err(
                SerialProtocolError::InvalidMatmulLayout {
                    reason: "elem_size_bytes must be greater than zero".to_owned(),
                },
            );
        }
        if self.a_row_stride < k {
            return Err(
                SerialProtocolError::InvalidMatmulLayout {
                    reason: too_small_text("a_row_stride", self.a_row_stride, "k", k),
                },
            );
        }
        if self.b_row_stride < n {
            return Err(
                SerialProtocolError::InvalidMatmulLayout {
                    reason: too_small_text("b_row_stride", self.b_row_stride, "n", n),
                },
            );
        }
        if self.out_row_stride < n {
            return Err(
                SerialProtocolError::InvalidMatmulLayout {
                    reason: too_small_text("out_row_stride", self.out_row_stride, "n", n),
                },
            );
        }
        Ok(())
    }
}

/// The element at the corner of the tile in tile row `row` and tile column `col`.
pub open spec fn corner(stride: usize, row: int, col: int) -> int {
    32 * row * stride + 32 * col
}

/// The device offset of an element.
pub open spec fn device_offset(base: u64, element: int, size: u64) -> int {
    base + element * size
}

/// Why the addresses of a tile cannot be computed.
pub enum TileFault {
    Index(Seq<char>),
    Address { base: u64, element: int },
}

/// The fault of the address of one element, if it has one.
pub open spec fn address_fault(base: u64, element: int, size: u64) -> Option<TileFault> {
    if device_offset(base, element, size) > u64::MAX {
        Some(TileFault::Address { base, element })
    } else {
        None
    }
}

/// The first fault of the tile product at `(m_tile, n_tile, k_tile)`: first the element
/// indices of both operands and the result, then their addresses.
pub open spec fn tile_fault(
    layout: MatmulMemoryLayout,
    m_tile: int,
    n_tile: int,
    k_tile: int,
) -> Option<TileFault> {
    let a = corner(layout.a_row_stride, m_tile, k_tile);
    let b = corner(layout.b_row_stride, k_tile, n_tile);
    let out = corner(layout.out_row_stride, m_tile, n_tile);
    let size = layout.elem_size_bytes;
    if a > usize::MAX {
        Some(TileFault::Index("A tile element index overflow"@))
    } else if b > usize::MAX {
        Some(TileFault::Index("B tile element index overflow"@))
    } else if out > usize::MAX {
        Some(TileFault::Index("output tile element index overflow"@))
    } else if address_fault(layout.a_base, a, size) is Some {
        address_fault(layout.a_base, a, size)
    } else if address_fault(layout.b_base, b, size) is Some {
        address_fault(layout.b_base, b, size)
    } else {
        address_fault(layout.out_base, out, size)
    }
}

/// Whether `e` reports the fault `f` of a layout with elements of `size` bytes.
pub open spec fn reports(e: SerialProtocolError, f: TileFault, size: u64) -> bool {
    match f {
        TileFault::Index(why) => refuses_layout(e, why),
        TileFault::Address { base, element } => e == (SerialProtocolError::MatmulAddressOverflow {
            base,
            element_index: element as usize,
            elem_size_bytes: size,
        }),
    }
}

/// The command of the tile product at `(m_tile, n_tile, k_tile)` out of `tiles_k` along the
/// inner dimension: the first clears its output tile, the others add to it, and the last is
/// marked.
pub open spec fn tile_command(
    layout: MatmulMemoryLayout,
    tiles_k: int,
    m_tile: int,
    n_tile: int,
    k_tile: int,
    tile_id: u32,
) -> Matmul32x32Command {
    let size = layout.elem_size_bytes;
    let a = corner(layout.a_row_stride, m_tile, k_tile);
    let b = corner(layout.b_row_stride, k_tile, n_tile);
    let out = corner(layout.out_row_stride, m_tile, n_tile);
    Matmul32x32Command {
        tile_id,
        a_offset: device_offset(layout.a_base, a, size) as u64,
        b_offset: device_offset(layout.b_base, b, size) as u64,
        out_offset: device_offset(layout.out_base, out, size) as u64,
        flags: ((if k_tile == 0 {
            MATMUL32X32_FLAG_CLEAR_OUTPUT
        } else {
            MATMUL32X32_FLAG_ACCUMULATE
        }) + (if k_tile + 1 == tiles_k {
            MATMUL32X32_FLAG_LAST_K_TILE as int
        } else {
            0
        })) as u32,
    }
}

/// Position `i` of a plan, counted with the inner dimension fastest and rows slowest, as
/// `(m_tile, n_tile, k_tile)`.
pub open spec fn tile_at(i: int, tiles_n: int, tiles_k: int) -> (int, int, int) {
    (i / tiles_k / tiles_n, (i / tiles_k) % tiles_n, i % tiles_k)
}

/// The command at position `i` of a plan.
pub open spec fn command_at(
    layout: MatmulMemoryLayout,
    tiles_n: int,
    tiles_k: int,
    i: int,
) -> Matmul32x32Command {
    let t = tile_at(i, tiles_n, tiles_k);
    tile_command(layout, tiles_k, t.0, t.1, t.2, (i % 0x1_0000_0000) as u32)
}

/// The fault at position `i` of a plan, if there is one.
pub open spec fn fault_at(layout: MatmulMemoryLayout, tiles_n: int, tiles_k: int, i: int) -> Option<
    TileFault,
> {
    let t = tile_at(i, tiles_n, tiles_k);
    tile_fault(layout, t.0, t.1, t.2)
}

/// Whether `commands` are the first commands of a plan, none of them with a fault.
pub open spec fn planned(
    commands: Seq<Matmul32x32Command>,
    layout: MatmulMemoryLayout,
    tiles_n: int,
    tiles_k: int,
) -> bool {
    &&& forall|i: int|
        0 <= i < commands.len() ==> #[trigger] fault_at(layout, tiles_n, tiles_k, i) is None
    &&& forall|i: int|
        0 <= i < commands.len() ==> #[trigger] commands[i] == command_at(
            layout,
            tiles_n,
            tiles_k,
            i,
        )
}

/// Whether a product of these dimensions can be cut into whole tiles.
pub open spec fn tileable(m: usize, k: usize, n: usize) -> bool {
    &&& m > 0 && m % 32 == 0
    &&& k > 0 && k % 32 == 0
    &&& n > 0 && n % 32 == 0
}

/// A product of whole tiles as commands in sending order.
#[derive(Debug, Clone, PartialEq, Eq)]
pub struct Matmul32x32Plan {
    pub m: usize,
    pub k: usize,
    pub n: usize,
    pub tiles_m: usize,
    pub tiles_k: usize,
    pub tiles_n: usize,
    pub commands: Vec<Matmul32x32Command>,
}

impl Matmul32x32Plan {
    /// How many commands the plan has.
    pub fn command_count(&self) -> (count: usize)
        ensures
            count == self.commands@.len(),
    {
        self.commands.len()
    }

    /// The frames of the plan, with consecutive sequence numbers that wrap around.
    pub fn frames(&self, first_sequence: u32) -> (frames: Vec<SerialFrame>)
        ensures
            frames@.len() == self.commands@.len(),
            forall|i: int|
                0 <= i < frames@.len() ==> (#[trigger] frames@[i])@ == (WireFrame {
                    opcode: SerialOpcode::Matmul32x32,
                    sequence: first_sequence.wrapping_add(i as u32),
                    flags: 0,
                    payload: command::matmul_bytes(self.commands@[i]),
                }),
    {
        let mut frames: Vec<SerialFrame> = Vec::new();
        let mut i: usize = 0;
        while i < self.commands.len()
            invariant
                i <= self.commands@.len(),
                frames@.len() == i,
                forall|j: int|
                    0 <= j < i ==> (#[trigger] frames@[j])@ == (WireFrame {
                        opcode: SerialOpcode::Matmul32x32,
                        sequence: first_sequence.wrapping_add(j as u32),
                        flags: 0,
                        payload: command::matmul_bytes(self.commands@[j]),
                    }),
            decreases self.commands@.len() - i,
        {
            let frame = self.commands[i].into_frame(first_sequence.wrapping_add(i as u32));
            frames.push(frame);
            i = i + 1;
        }
        frames
    }
}

/// The offset of an element on the device.
fn checked_device_offset(base: u64, element_index: usize, elem_size_bytes: u64) -> (result: Result<
    u64,
    SerialProtocolError,
>)
    ensures
        match address_fault(base, element_index as int, elem_size_bytes) {
            None => result == Ok::<u64, SerialProtocolError>(
                device_offset(base, element_index as int, elem_size_bytes) as u64,
            ),
            Some(f) => result matches Err(e) && reports(e, f, elem_size_bytes),
        },
{
    let overflow = SerialProtocolError::MatmulAddressOverflow {
        base,
        element_index,
        elem_size_bytes,
    };
    let byte_offset: u64 = match (element_index as u64).checked_mul(elem_size_bytes) {
        Some(v) => v,
        None => return Err(overflow),
    };
    match base.checked_add(byte_offset) {
        Some(v) => Ok(v),
        None => Err(overflow),
    }
}

/// The element at the corner of a tile, if it can be counted.
fn checked_corner(stride: usize, row_start: usize, col_start: usize) -> (element: Option<usize>)
    ensures
        match element {
            Some(v) => v == row_start * stride + col_start,
            None => row_start * stride + col_start > usize::MAX,
        },
{
    match row_start.checked_mul(stride) {
        Some(v) => v.checked_add(col_start),
        None => None,
    }
}

/// An error about a layout.
fn layout_error(why: &str) -> (e: SerialProtocolError)
    ensures
        refuses_layout(e, why@),
{
    SerialProtocolError::InvalidMatmulLayout { reason: why.to_owned() }
}

/// The command of one tile product.
fn plan_tile(
    layout: &MatmulMemoryLayout,
    tiles_k: usize,
    m_tile: usize,
    n_tile: usize,
    k_tile: usize,
    tile_id: u32,
) -> (result: Result<Matmul32x32Command, SerialProtocolError>)
    requires
        32 * m_tile <= usize::MAX,
        32 * n_tile <= usize::MAX,
        32 * k_tile < usize::MAX,
    ensures
        match tile_fault(*layout, m_tile as int, n_tile as int, k_tile as int) {
            None => result == Ok::<Matmul32x32Command, SerialProtocolError>(
                tile_command(
                    *layout,
                    tiles_k as int,
                    m_tile as int,
                    n_tile as int,
                    k_tile as int,
                    tile_id,
                ),
            ),
            Some(f) => result matches Err(e) && reports(e, f, layout.elem_size_bytes),
        },
{
    let row_start: usize = Matmul32x32Command::M * m_tile;
    let col_start: usize = Matmul32x32Command::N * n_tile;
    let k_start: usize = Matmul32x32Command::K * k_tile;
    let first: u32 = if k_tile == 0 {
        MATMUL32X32_FLAG_CLEAR_OUTPUT
    } else {
        MATMUL32X32_FLAG_ACCUMULATE
    };
    let flags: u32 = if k_tile + 1 == tiles_k {
        first + MATMUL32X32_FLAG_LAST_K_TILE
    } else {
        first
    };
    let a_element: usize = match checked_corner(layout.a_row_stride, row_start, k_start) {
        Some(v) => v,
        None => return Err(layout_error("A tile element index overflow")),
    };
    let b_element: usize = match checked_corner(layout.b_row_stride, k_start, col_start) {
        Some(v) => v,
        None => return Err(layout_error("B tile element index overflow")),
    };
    let out_element: usize = match checked_corner(layout.out_row_stride, row_start, col_start) {
        Some(v) => v,
        None => return Err(layout_error("output tile element index overflow")),
    };
    let size: u64 = layout.elem_size_bytes;
    let a_offset: u64 = checked_device_offset(layout.a_base, a_element, size)?;
    let b_offset: u64 = checked_device_offset(layout.b_base, b_element, size)?;
    let out_offset: u64 = checked_device_offset(layout.out_base, out_element, size)?;
    Ok(Matmul32x32Command { tile_id, a_offset, b_offset, out_offset, flags })
}

/// The position of a tile product in a plan.
pub open spec fn position(m_tile: int, n_tile: int, k_tile: int, tiles_n: int, tiles_k: int) -> int {
    (m_tile * tiles_n + n_tile) * tiles_k + k_tile
}

/// Every tile product has exactly one position in a plan: the position leads back to the
/// tiles, and every place in the plan is the position of its tiles.
pub proof fn law_positions_are_unique(
    m_tile: int,
    n_tile: int,
    k_tile: int,
    tiles_m: int,
    tiles_n: int,
    tiles_k: int,
)
    requires
        0 <= m_tile < tiles_m,
        0 <= n_tile < tiles_n,
        0 <= k_tile < tiles_k,
    ensures
        0 <= position(m_tile, n_tile, k_tile, tiles_n, tiles_k) < tiles_m * tiles_n * tiles_k,
        tile_at(position(m_tile, n_tile, k_tile, tiles_n, tiles_k), tiles_n, tiles_k) == (
            m_tile,
            n_tile,
            k_tile,
        ),
{
    let row = m_tile * tiles_n + n_tile;
    let i = row * tiles_k + k_tile;
    lemma_fundamental_div_mod_converse(i, tiles_k, row, k_tile);
    lemma_fundamental_div_mod_converse(row, tiles_n, m_tile, n_tile);
    assert(0 <= row < tiles_m * tiles_n) by (nonlinear_arith)
        requires
            row == m_tile * tiles_n + n_tile,
            0 <= m_tile < tiles_m,
            0 <= n_tile < tiles_n,
    ;
    assert(0 <= i < tiles_m * tiles_n * tiles_k) by (nonlinear_arith)
        requires
            i == row * tiles_k + k_tile,
            0 <= row < tiles_m * tiles_n,
            0 <= k_tile < tiles_k,
    ;
}

/// Whether `result` is what planning a product of an m by k and a k by n matrix owes its
/// caller: a shape that does not tile is refused, then a layout that cannot hold the operands;
/// then the first tile with an address that does not fit is reported. Else the plan holds the
/// command of each tile.
pub open spec fn plan_outcome(
    m: usize,
    k: usize,
    n: usize,
    layout: MatmulMemoryLayout,
    result: Result<Matmul32x32Plan, SerialProtocolError>,
) -> bool {
    &&& !tileable(m, k, n) ==> result == Err::<Matmul32x32Plan, SerialProtocolError>(
        SerialProtocolError::InvalidMatmulShape { m, k, n },
    )
    &&& tileable(m, k, n) && layout_fault(layout, k, n) is Some ==> {
        result matches Err(e) && refuses_layout(e, layout_fault(layout, k, n)->0)
    }
    &&& tileable(m, k, n) && layout_fault(layout, k, n) is None ==> {
        let total = (m / 32) * (n / 32) * (k / 32);
        match result {
            Ok(plan) => {
                &&& plan.m == m && plan.k == k && plan.n == n
                &&& plan.tiles_m == m / 32 && plan.tiles_k == k / 32 && plan.tiles_n == n / 32
                &&& plan.commands@.len() == total
                &&& forall|i: int|
                    0 <= i < total ==> #[trigger] fault_at(
                        layout,
                        n as int / 32,
                        k as int / 32,
                        i,
                    ) is None
                &&& forall|i: int|
                    0 <= i < total ==> #[trigger] plan.commands@[i] == command_at(
                        layout,
                        n as int / 32,
                        k as int / 32,
                        i,
                    )
            },
            Err(e) => exists|i: int|
                {
                    &&& 0 <= i < total
                    &&& #[trigger] fault_at(
                        layout,
                        n as int / 32,
                        k as int / 32,
                        i,
                    ) matches Some(f) && reports(e, f, layout.elem_size_bytes)
                    &&& forall|j: int|
                        0 <= j < i ==> #[trigger] fault_at(
                            layout,
                            n as int / 32,
                            k as int / 32,
                            j,
                        ) is None
                },
        }
    }
}

/// Cuts the product of an `m` by `k` and a `k` by `n` matrix into tile commands.
pub fn plan_matmul32x32_commands(
    m: usize,
    k: usize,
    n: usize,
    layout: MatmulMemoryLayout,
) -> (result: Result<Matmul32x32Plan, SerialProtocolError>)
    ensures
        plan_outcome(m, k, n, layout, result),
{
    if m == 0 || k == 0 || n == 0 || m % Matmul32x32Command::M != 0 || k % Matmul32x32Command::K
        != 0 || n % Matmul32x32Command::N != 0 {
        return Err(SerialProtocolError::InvalidMatmulShape { m, k, n });
    }
    layout.validate(k, n)?;
    let tiles_m: usize = m / Matmul32x32Command::M;
    let tiles_k: usize = k / Matmul32x32Command::K;
    let tiles_n: usize = n / Matmul32x32Command::N;
    let ghost (tm, tn, tk) = (tiles_m as int, tiles_n as int, tiles_k as int);
    let mut commands: Vec<Matmul32x32Command> = Vec::new();
    let mut tile_id: u32 = 0;
    let mut m_tile: usize = 0;
    assert(position(0, 0, 0, tn, tk) == 0) by (nonlinear_arith);
    while m_tile < tiles_m
        invariant
            m_tile <= tiles_m,
            tm == tiles_m == m / 32 && tn == tiles_n == n / 32 && tk == tiles_k == k / 32,
            tiles_k > 0 && tiles_n > 0,
            tileable(m, k, n) && layout_fault(layout, k, n) is None,
            commands@.len() == position(m_tile as int, 0, 0, tn, tk),
            tile_id == commands@.len() % 0x1_0000_0000,
            planned(commands@, layout, tn, tk),
        decreases tiles_m - m_tile,
    {
        let mut n_tile: usize = 0;
        while n_tile < tiles_n
            invariant
                m_tile < tiles_m,
                n_tile <= tiles_n,
                tm == tiles_m == m / 32 && tn == tiles_n == n / 32 && tk == tiles_k == k / 32,
                tiles_k > 0 && tiles_n > 0,
                tileable(m, k, n) && layout_fault(layout, k, n) is None,
                commands@.len() == position(m_tile as int, n_tile as int, 0, tn, tk),
                tile_id == commands@.len() % 0x1_0000_0000,
                planned(commands@, layout, tn, tk),
            decreases tiles_n - n_tile,
        {
            let mut k_tile: usize = 0;
            while k_tile < tiles_k
                invariant
                    m_tile < tiles_m,
                    n_tile < tiles_n,
                    k_tile <= tiles_k,
                    tm == tiles_m == m / 32 && tn == tiles_n == n / 32 && tk == tiles_k == k / 32,
                    tiles_k > 0 && tiles_n > 0,
                    tileable(m, k, n) && layout_fault(layout, k, n) is None,
                    commands@.len() == position(
                        m_tile as int,
                        n_tile as int,
                        k_tile as int,
                        tn,
                        tk,
                    ),
                    tile_id == commands@.len() % 0x1_0000_0000,
                    planned(commands@, layout, tn, tk),
                decreases tiles_k - k_tile,
            {
                let ghost at = commands@.len() as int;
                proof {
                    law_positions_are_unique(
                        m_tile as int,
                        n_tile as int,
                        k_tile as int,
                        tm,
                        tn,
                        tk,
                    );
                    assert(tile_at(at, tn, tk) == (m_tile as int, n_tile as int, k_tile as int));
                }
                match plan_tile(&layout, tiles_k, m_tile, n_tile, k_tile, tile_id) {
                    Ok(command) => {
                        commands.push(command);
                    },
                    Err(e) => {
                        assert(fault_at(layout, tn, tk, at) is Some);
                        return Err(e);
                    },
                }
                tile_id = tile_id.wrapping_add(1);
                k_tile = k_tile + 1;
            }
            assert(position(m_tile as int, n_tile as int, tk, tn, tk) == position(
                m_tile as int,
                n_tile + 1,
                0,
                tn,
                tk,
            )) by (nonlinear_arith);
            n_tile = n_tile + 1;
        }
        assert(position(m_tile as int, tn, 0, tn, tk) == position(m_tile + 1, 0, 0, tn, tk))
            by (nonlinear_arith);
        m_tile = m_tile + 1;
    }
    assert(position(tm, 0, 0, tn, tk) == tm * tn * tk) by (nonlinear_arith);
    Ok(Matmul32x32Plan { m, k, n, tiles_m, tiles_k, tiles_n, commands })
}

/// Where a tile product reads and writes: every tile starts at the element in its row and column,
/// 32 of each to a tile, and an element lies behind the start of its matrix by as many sizes as
/// its row times the stride, and its column, tell. The first product of a tile clears it, the
/// others add to it, and the last is marked.
pub proof fn law_commands_address_their_tiles(
    m: usize,
    k: usize,
    n: usize,
    layout: MatmulMemoryLayout,
    plan: Matmul32x32Plan,
    row: int,
    col: int,
    inner: int,
)
    requires
        tileable(m, k, n),
        layout_fault(layout, k, n) is None,
        plan_outcome(m, k, n, layout, Ok(plan)),
        0 <= row && row + 32 <= m && row % 32 == 0,
        0 <= col && col + 32 <= n && col % 32 == 0,
        0 <= inner && inner + 32 <= k && inner % 32 == 0,
    ensures
        ({
            let i = position(row / 32, col / 32, inner / 32, n as int / 32, k as int / 32);
            let command = plan.commands@[i];
            let size = layout.elem_size_bytes;
            &&& 0 <= i < plan.commands@.len()
            &&& command.a_offset == layout.a_base + (row * layout.a_row_stride + inner) * size
            &&& command.b_offset == layout.b_base + (inner * layout.b_row_stride + col) * size
            &&& command.out_offset == layout.out_base + (row * layout.out_row_stride + col) * size
            &&& command.flags == if inner == 0 && inner + 32 == k {
                MATMUL32X32_FLAG_CLEAR_OUTPUT + MATMUL32X32_FLAG_LAST_K_TILE
            } else if inner == 0 {
                MATMUL32X32_FLAG_CLEAR_OUTPUT as int
            } else if inner + 32 == k {
                MATMUL32X32_FLAG_ACCUMULATE + MATMUL32X32_FLAG_LAST_K_TILE
            } else {
                MATMUL32X32_FLAG_ACCUMULATE as int
            }
        }),
{
    let (tm, tn, tk) = (m as int / 32, n as int / 32, k as int / 32);
    let (r, c, p) = (row / 32, col / 32, inner / 32);
    law_positions_are_unique(r, c, p, tm, tn, tk);
    let i = position(r, c, p, tn, tk);
    assert(fault_at(layout, tn, tk, i) is None);
    assert(plan.commands@[i] == command_at(layout, tn, tk, i));
    assert(32 * r == row && 32 * c == col && 32 * p == inner);
    let size = layout.elem_size_bytes;
    lemma_offset(layout.a_base, corner(layout.a_row_stride, r, p), size);
    lemma_offset(layout.b_base, corner(layout.b_row_stride, p, c), size);
    lemma_offset(layout.out_base, corner(layout.out_row_stride, r, c), size);
    lemma_corner(layout.a_row_stride, r, p);
    lemma_corner(layout.b_row_stride, p, c);
    lemma_corner(layout.out_row_stride, r, c);
}

/// The corner of a tile is not before the first element.
proof fn lemma_corner(stride: usize, row: int, col: int)
    requires
        0 <= row,
        0 <= col,
    ensures
        corner(stride, row, col) >= 0,
        corner(stride, row, col) == (32 * row) * stride + 32 * col,
{
    assert(32 * row * stride >= 0) by (nonlinear_arith)
        requires
            0 <= row,
            0 <= stride,
    ;
}

/// An offset of an element is not before the start of its matrix.
proof fn lemma_offset(base: u64, element: int, size: u64)
    ensures
        element >= 0 ==> device_offset(base, element, size) >= base,
{
    if element >= 0 {
        assert(element * size >= 0) by (nonlinear_arith)
            requires
                element >= 0,
                size >= 0,
        ;
    }
}

} // verus!
