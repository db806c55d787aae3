use vstd::prelude::*;

verus! {

/// Bound on layer offsets (in quarter-pixel world units) that a
/// well-formed map document may carry. Keeping offsets inside this
/// range lets every coordinate computation stay inside `i64`.
pub const OFFSET_BOUND: i64 = 0x1000_0000_0000_0000;

/// One occupied cell of a tile layer, as the map document stores it:
/// the index of the tileset the tile comes from, the tile's id local
/// to that tileset, and the three flip flags.
#[derive(Clone, Copy, PartialEq, Eq, Structural, Debug)]
pub struct TileRef {
    pub tileset_index: usize,
    pub tile_id: u32,
    pub flip_h: bool,
    pub flip_v: bool,
    pub flip_d: bool,
}

/// A tile placement of a built layer: the texture index within the
/// layer's tileset plus the three flip flags. The position is given by
/// the grid slot that holds the placement.
#[derive(Clone, Copy, PartialEq, Eq, Structural, Debug)]
pub struct TilePlacement {
    pub texture_index: u32,
    pub flip_h: bool,
    pub flip_v: bool,
    pub flip_d: bool,
}

/// A tileset of the map document. `image` carries the resolved image
/// handle, or `None` while the tileset's image is unresolved; a
/// tileset without an image is skipped by the reconciler.
#[derive(Clone, Copy, PartialEq, Eq, Debug)]
pub struct Tileset {
    pub tile_width: u32,
    pub tile_height: u32,
    pub spacing: u32,
    pub image: Option<u32>,
}

/// The orientation stored in the map document.
#[derive(Clone, Copy, PartialEq, Eq, Structural, Debug)]
pub enum Orientation {
    Orthogonal,
    Isometric,
    Staggered,
    Hexagonal,
}

/// The projection kind handed to the renderer for a built layer.
#[derive(Clone, Copy, PartialEq, Eq, Structural, Debug)]
pub enum Projection {
    Square,
    IsometricDiamond,
    IsometricStaggered,
    HexagonRow,
}

/// The projection that each document orientation maps to.
pub open spec fn spec_projection(o: Orientation) -> Projection {
    match o {
        Orientation::Orthogonal => Projection::Square,
        Orientation::Isometric => Projection::IsometricDiamond,
        Orientation::Staggered => Projection::IsometricStaggered,
        Orientation::Hexagonal => Projection::HexagonRow,
    }
}

/// Executable mapping from orientation to projection kind.
pub fn projection_of(o: &Orientation) -> (p: Projection)
    ensures
        p == spec_projection(*o),
{
    match o {
        Orientation::Orthogonal => Projection::Square,
        Orientation::Isometric => Projection::IsometricDiamond,
        Orientation::Staggered => Projection::IsometricStaggered,
        Orientation::Hexagonal => Projection::HexagonRow,
    }
}

/// The finite grid of a tile layer in the source map's row order: the
/// cell at raw column `cx`, raw row `cy` sits at index `cy * width + cx`.
pub struct TileGrid {
    pub cells: Vec<Option<TileRef>>,
}

impl View for TileGrid {
    type V = Seq<Option<TileRef>>;

    open spec fn view(&self) -> Seq<Option<TileRef>> {
        self.cells@
    }
}

/// What a layer holds: a finite tile grid, an infinite (chunked) tile
/// layer, or some other layer kind (object or image layers). Only
/// finite tile layers are built; the others are skipped.
pub enum LayerKind {
    Finite(TileGrid),
    Infinite,
    Other,
}

/// Spec-level image of `LayerKind`.
pub enum LayerKindV {
    Finite(Seq<Option<TileRef>>),
    Infinite,
    Other,
}

impl View for LayerKind {
    type V = LayerKindV;

    open spec fn view(&self) -> LayerKindV {
        match self {
            LayerKind::Finite(g) => LayerKindV::Finite(g@),
            LayerKind::Infinite => LayerKindV::Infinite,
            LayerKind::Other => LayerKindV::Other,
        }
    }
}

/// A layer of the map document. Offsets are in quarter-pixel world
/// units, in the source format's convention (positive `offset_y`
/// moves the layer down; the builder negates it for world space).
pub struct Layer {
    pub id: u32,
    pub name: String,
    pub offset_x: i64,
    pub offset_y: i64,
    pub kind: LayerKind,
}

/// Spec-level image of `Layer`.
pub struct LayerV {
    pub id: u32,
    pub name: Seq<char>,
    pub offset_x: i64,
    pub offset_y: i64,
    pub kind: LayerKindV,
}

impl View for Layer {
    type V = LayerV;

    open spec fn view(&self) -> LayerV {
        LayerV {
            id: self.id,
            name: self.name@,
            offset_x: self.offset_x,
            offset_y: self.offset_y,
            kind: self.kind@,
        }
    }
}

/// The parsed, immutable map document: dimensions in tiles, the size
/// of a grid cell in pixels, the orientation, and the ordered tileset
/// and layer sequences. Produced by the external parser; read-only
/// for everything in this crate.
pub struct MapDocument {
    pub width: u32,
    pub height: u32,
    pub tile_width: u32,
    pub tile_height: u32,
    pub orientation: Orientation,
    pub tilesets: Vec<Tileset>,
    pub layers: Vec<Layer>,
}

/// Spec-level image of `MapDocument`.
pub struct MapDocumentV {
    pub width: u32,
    pub height: u32,
    pub tile_width: u32,
    pub tile_height: u32,
    pub orientation: Orientation,
    pub tilesets: Seq<Tileset>,
    pub layers: Seq<LayerV>,
}

impl View for MapDocument {
    type V = MapDocumentV;

    open spec fn view(&self) -> MapDocumentV {
        MapDocumentV {
            width: self.width,
            height: self.height,
            tile_width: self.tile_width,
            tile_height: self.tile_height,
            orientation: self.orientation,
            tilesets: self.tilesets@,
            layers: self.layers@.map_values(|l: Layer| l@),
        }
    }
}

/// A cell is well formed when an occupying tile references an existing
/// tileset; an empty cell always is.
pub open spec fn cell_wf(d: MapDocumentV, c: Option<TileRef>) -> bool {
    c matches Some(t) ==> t.tileset_index < d.tilesets.len()
}

/// A layer is well formed when a finite grid has exactly one cell per
/// map position, every cell references a valid tileset, and the layer
/// offsets stay inside `OFFSET_BOUND`.
pub open spec fn layer_wf(d: MapDocumentV, l: LayerV) -> bool {
    &&& (l.kind matches LayerKindV::Finite(cells) ==> {
        &&& cells.len() == d.width * d.height
        &&& forall|ci: int| 0 <= ci < cells.len() ==> cell_wf(d, #[trigger] cells[ci])
    })
    &&& -OFFSET_BOUND <= l.offset_x <= OFFSET_BOUND
    &&& -OFFSET_BOUND <= l.offset_y <= OFFSET_BOUND
}

/// Invariant of the map document: every layer is well formed.
pub open spec fn doc_wf(d: MapDocumentV) -> bool {
    forall|li: int| 0 <= li < d.layers.len() ==> layer_wf(d, #[trigger] d.layers[li])
}

} // verus!
