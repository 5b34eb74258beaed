use vstd::prelude::*;
use image::{GenericImageView, Pixel};

verus! {

/// The wall, floor, ceiling and sprite textures, in the order the assets
/// load them.
#[derive(Clone, Copy, Debug)]
pub enum TextureId {
    BrickWalls,
    RedBricks,
    Ceiling,
    RedFlooring,
    Barrel,
    Light,
    Pillar,
    CorrodedCooperWall,
    GreyBricks,
}

pub open spec fn spec_texture_index(id: TextureId) -> u32 {
    match id {
        TextureId::BrickWalls => 0,
        TextureId::RedBricks => 1,
        TextureId::Ceiling => 2,
        TextureId::RedFlooring => 3,
        TextureId::Barrel => 4,
        TextureId::Light => 5,
        TextureId::Pillar => 6,
        TextureId::CorrodedCooperWall => 7,
        TextureId::GreyBricks => 8,
    }
}

impl TextureId {
    /// Position of the texture in the list of textures (its number).
    pub fn index(self) -> (i: u32)
        ensures
            i == spec_texture_index(self),
            i < 9,
    {
        match self {
            TextureId::BrickWalls => 0,
            TextureId::RedBricks => 1,
            TextureId::Ceiling => 2,
            TextureId::RedFlooring => 3,
            TextureId::Barrel => 4,
            TextureId::Light => 5,
            TextureId::Pillar => 6,
            TextureId::CorrodedCooperWall => 7,
            TextureId::GreyBricks => 8,
        }
    }
}

/// A decoded texture: `data` holds one 0x00RRGGBB value per pixel, row after row.
#[derive(Clone, Debug)]
pub struct Texture {
    pub id: u32,
    pub width: u32,
    pub height: u32,
    pub data: Vec<u32>,
}

/// The image that `image::load_from_memory` decodes from `bytes`, as its
/// width, height and RGB pixels row after row; `None` where decoding fails.
pub uninterp spec fn decoded_rgb(bytes: Seq<u8>) -> Option<(u32, u32, Seq<(u8, u8, u8)>)>;

/// `image::load_from_memory`, then the image's `dimensions` and its `pixels`
/// (row after row, as the crate's pixel iterator walks them) each turned to
/// RGB by `to_rgb`. What the pixels are is the decoder's; the contract only
/// names it, and says that there is one pixel per position.
#[verifier::external_body]
fn decode_rgb(bytes: &[u8]) -> (decoded: Option<(u32, u32, Vec<(u8, u8, u8)>)>)
    ensures
        decoded is None <==> decoded_rgb(bytes@) is None,
        decoded matches Some(d) ==> decoded_rgb(bytes@) == Some((d.0, d.1, d.2@)),
        decoded matches Some(d) ==> d.2@.len() == d.0 * d.1,
{
    match image::load_from_memory(bytes) {
        Ok(img) => {
            let (width, height) = img.dimensions();
            let pixels: Vec<(u8, u8, u8)> = img.pixels().map(|(_, _, p)| {
                let rgb = p.to_rgb();
                (rgb[0], rgb[1], rgb[2])
            }).collect();
            Some((width, height, pixels))
        },
        Err(_) => None,
    }
}

pub open spec fn spec_pack_rgb(p: (u8, u8, u8)) -> u32 {
    (p.0 * 0x1_0000 + p.1 * 0x100 + p.2) as u32
}

/// One RGB pixel as 0x00RRGGBB.
pub fn pack_rgb(p: (u8, u8, u8)) -> (v: u32)
    ensures
        v == spec_pack_rgb(p),
{
    let (r, g, b) = p;
    let v = ((r as u32) << 16) | ((g as u32) << 8) | (b as u32);
    assert((((r as u32) << 16) | ((g as u32) << 8) | (b as u32)) == r * 0x1_0000 + g * 0x100 + b) by (bit_vector);
    v
}

/// Decodes an image file held in memory into a texture with the given
/// number; `None` where the image cannot be decoded.
pub fn load_texture(id: u32, bytes: &[u8]) -> (t: Option<Texture>)
    ensures
        t is None <==> decoded_rgb(bytes@) is None,
        t matches Some(t) ==> {
            &&& t.id == id
            &&& decoded_rgb(bytes@) matches Some(d)
            &&& t.width == d.0
            &&& t.height == d.1
            &&& t.data@ == d.2.map_values(|p: (u8, u8, u8)| spec_pack_rgb(p))
            &&& t.data@.len() == t.width * t.height
        },
{
    match decode_rgb(bytes) {
        None => None,
        Some((width, height, pixels)) => {
            let mut data: Vec<u32> = Vec::new();
            let n = pixels.len();
            let mut i: usize = 0;
            while i < n
                invariant
                    n == pixels@.len(),
                    i <= n,
                    data@ == pixels@.take(i as int).map_values(|p: (u8, u8, u8)| spec_pack_rgb(p)),
                decreases n - i,
            {
                let v = pack_rgb(pixels[i]);
                data.push(v);
                i = i + 1;
                proof {
                    assert(pixels@.take(i as int) =~= pixels@.take(i - 1).push(pixels@[i - 1]));
                    assert(data@ =~= pixels@.take(i as int).map_values(|p: (u8, u8, u8)| spec_pack_rgb(p)));
                }
            }
            proof {
                assert(pixels@.take(n as int) =~= pixels@);
            }
            Some(Texture { id, width, height, data })
        },
    }
}

} // verus!
