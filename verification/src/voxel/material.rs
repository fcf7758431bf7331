use vstd::prelude::*;

use crate::voxel::data::VoxelKind;

verus! {

/// Rows of the block texture array.
pub const TEXTURE_LAYERS: u32 = 9;

/// The built-in texture packs.
#[derive(Clone, Copy, Debug, PartialEq, Eq, Structural)]
pub enum TexturePackId {
    Replete,
    Meadow,
    Twilight,
}

impl Default for TexturePackId {
    fn default() -> (id: Self)
        ensures
            id == TexturePackId::Replete,
    {
        TexturePackId::Replete
    }
}

impl TexturePackId {
    /// Every pack, in menu order.
    pub fn all() -> (ids: [Self; 3])
        ensures
            ids@ == seq![TexturePackId::Replete, TexturePackId::Meadow, TexturePackId::Twilight],
    {
        let ids = [TexturePackId::Replete, TexturePackId::Meadow, TexturePackId::Twilight];
        assert(ids@ =~= seq![TexturePackId::Replete, TexturePackId::Meadow, TexturePackId::Twilight]);
        ids
    }

    /// The name shown to players.
    pub fn label(self) -> (label: &'static str)
        ensures
            label@ == match self {
                TexturePackId::Replete => "Replete"@,
                TexturePackId::Meadow => "Meadow"@,
                TexturePackId::Twilight => "Twilight"@,
            },
    {
        match self {
            TexturePackId::Replete => "Replete",
            TexturePackId::Meadow => "Meadow",
            TexturePackId::Twilight => "Twilight",
        }
    }

    /// The pack's directory under `voxel/packs`.
    pub fn directory(self) -> (directory: &'static str)
        ensures
            directory@ == match self {
                TexturePackId::Replete => "replete"@,
                TexturePackId::Meadow => "meadow"@,
                TexturePackId::Twilight => "twilight"@,
            },
    {
        match self {
            TexturePackId::Replete => "replete",
            TexturePackId::Meadow => "meadow",
            TexturePackId::Twilight => "twilight",
        }
    }
}

/// Texture array rows of one block's top, sides and bottom.
#[derive(Clone, Copy, Debug, PartialEq, Eq, Structural)]
pub struct BlockLayers {
    pub top: u32,
    pub side: u32,
    pub bottom: u32,
}

/// Texture rows of every textured block kind.
#[derive(Clone, Copy, Debug, PartialEq, Eq, Structural)]
pub struct BlockLayerTable {
    pub grass: BlockLayers,
    pub dirt: BlockLayers,
    pub stone: BlockLayers,
    pub sand: BlockLayers,
    pub snow: BlockLayers,
    pub wood: BlockLayers,
    pub leaves: BlockLayers,
}

impl BlockLayerTable {
    /// The rows of a kind; air and water have none.
    pub open spec fn spec_config(&self, kind: VoxelKind) -> Option<BlockLayers> {
        match kind {
            VoxelKind::Grass => Some(self.grass),
            VoxelKind::Dirt => Some(self.dirt),
            VoxelKind::Stone => Some(self.stone),
            VoxelKind::Sand => Some(self.sand),
            VoxelKind::Snow => Some(self.snow),
            VoxelKind::Wood => Some(self.wood),
            VoxelKind::Leaves => Some(self.leaves),
            VoxelKind::Air | VoxelKind::Water => None,
        }
    }

    /// Exactly the kinds that hide what lies behind them have block textures,
    /// and different such kinds read their own entries.
    pub proof fn lemma_config_law(&self, kind: VoxelKind)
        ensures
            self.spec_config(kind) is Some <==> kind.spec_is_opaque(),
            kind == VoxelKind::Grass ==> self.spec_config(kind) == Some(self.grass),
            kind == VoxelKind::Dirt ==> self.spec_config(kind) == Some(self.dirt),
            kind == VoxelKind::Stone ==> self.spec_config(kind) == Some(self.stone),
            kind == VoxelKind::Sand ==> self.spec_config(kind) == Some(self.sand),
            kind == VoxelKind::Snow ==> self.spec_config(kind) == Some(self.snow),
            kind == VoxelKind::Wood ==> self.spec_config(kind) == Some(self.wood),
            kind == VoxelKind::Leaves ==> self.spec_config(kind) == Some(self.leaves),
    {
    }

    pub fn config(&self, kind: VoxelKind) -> (config: Option<BlockLayers>)
        ensures
            config == self.spec_config(kind),
    {
        match kind {
            VoxelKind::Grass => Some(self.grass),
            VoxelKind::Dirt => Some(self.dirt),
            VoxelKind::Stone => Some(self.stone),
            VoxelKind::Sand => Some(self.sand),
            VoxelKind::Snow => Some(self.snow),
            VoxelKind::Wood => Some(self.wood),
            VoxelKind::Leaves => Some(self.leaves),
            VoxelKind::Air | VoxelKind::Water => None,
        }
    }

    /// The texture row of a face of an opaque voxel: top or bottom on the y
    /// axis (by direction), the side row on x and z.
    pub fn texture_layer(&self, kind: VoxelKind, axis: usize, positive: bool) -> (layer: u32)
        requires
            kind.spec_is_opaque(),
        ensures
            layer == if axis == 1 {
                if positive {
                    self.spec_config(kind).unwrap().top
                } else {
                    self.spec_config(kind).unwrap().bottom
                }
            } else {
                self.spec_config(kind).unwrap().side
            },
    {
        let config = match self.config(kind) {
            Some(config) => config,
            None => {
                assert(false);
                BlockLayers { top: 0, side: 0, bottom: 0 }
            },
        };
        if axis == 1 {
            if positive {
                config.top
            } else {
                config.bottom
            }
        } else {
            config.side
        }
    }
}

/// Asset path of a pack's block texture.
pub fn texture_path(id: TexturePackId, texture: &str) -> (path: String)
    ensures
        path@ == "voxel/packs/"@ + id.directory_spec() + "/"@ + texture@,
{
    let mut path = String::from_str("voxel/packs/");
    path.append(id.directory());
    path.append("/");
    path.append(texture);
    proof {
        reveal_strlit("voxel/packs/");
        reveal_strlit("/");
    }
    path
}

impl TexturePackId {
    pub open spec fn directory_spec(self) -> Seq<char> {
        match self {
            TexturePackId::Replete => "replete"@,
            TexturePackId::Meadow => "meadow"@,
            TexturePackId::Twilight => "twilight"@,
        }
    }
}

} // verus!
