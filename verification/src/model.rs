use vstd::prelude::*;
use crate::geometry::Array;
use crate::tga_image::TgaColor;
use crate::tga_image::TgaImage;

verus! {

/// A triangle mesh: vertex positions, texture coordinates and normals, three
/// indices into each per face corner, and the texture images that go with it.
pub struct Model<T> {
    verts: Vec<Array<T>>,
    tex_coord: Vec<Array<T>>,
    norms: Vec<Array<T>>,
    facet_vrt: Vec<i32>,
    facet_tex: Vec<i32>,
    facet_nrm: Vec<i32>,
    diffusemap: TgaImage,
    normalmap: TgaImage,
    specularmap: TgaImage,
}

impl<T> Model<T> {
    /// Vertex positions.
    pub closed spec fn spec_verts(&self) -> Seq<Seq<T>> {
        self.verts@.map_values(|a: Array<T>| a@)
    }

    /// Texture coordinates.
    pub closed spec fn spec_tex_coords(&self) -> Seq<Seq<T>> {
        self.tex_coord@.map_values(|a: Array<T>| a@)
    }

    /// Normal vectors.
    pub closed spec fn spec_norms(&self) -> Seq<Seq<T>> {
        self.norms@.map_values(|a: Array<T>| a@)
    }

    /// Position index of each face corner, face by face.
    pub closed spec fn spec_facet_vrt(&self) -> Seq<i32> {
        self.facet_vrt@
    }

    /// Texture coordinate index of each face corner.
    pub closed spec fn spec_facet_tex(&self) -> Seq<i32> {
        self.facet_tex@
    }

    /// Normal index of each face corner.
    pub closed spec fn spec_facet_nrm(&self) -> Seq<i32> {
        self.facet_nrm@
    }

    pub closed spec fn spec_diffusemap(&self) -> TgaImage {
        self.diffusemap
    }

    pub closed spec fn spec_normalmap(&self) -> TgaImage {
        self.normalmap
    }

    pub closed spec fn spec_specularmap(&self) -> TgaImage {
        self.specularmap
    }

    /// Index `k` of `facet` points into a table of `n` entries.
    pub open spec fn index_ok(facet: Seq<i32>, k: int, n: nat) -> bool {
        0 <= k < facet.len() && 0 <= facet[k] < n
    }
}

impl<T: Copy> Model<T> {
    /// A model made of the given tables and texture images.
    pub fn from_parts(
        verts: Vec<Array<T>>,
        tex_coord: Vec<Array<T>>,
        norms: Vec<Array<T>>,
        facet_vrt: Vec<i32>,
        facet_tex: Vec<i32>,
        facet_nrm: Vec<i32>,
        diffusemap: TgaImage,
        normalmap: TgaImage,
        specularmap: TgaImage,
    ) -> (m: Self)
        ensures
            m.spec_verts() == verts@.map_values(|a: Array<T>| a@),
            m.spec_tex_coords() == tex_coord@.map_values(|a: Array<T>| a@),
            m.spec_norms() == norms@.map_values(|a: Array<T>| a@),
            m.spec_facet_vrt() == facet_vrt@,
            m.spec_facet_tex() == facet_tex@,
            m.spec_facet_nrm() == facet_nrm@,
            m.spec_diffusemap() == diffusemap,
            m.spec_normalmap() == normalmap,
            m.spec_specularmap() == specularmap,
    {
        Model { verts, tex_coord, norms, facet_vrt, facet_tex, facet_nrm, diffusemap, normalmap, specularmap }
    }

    /// Texture coordinates of corner `nthvert` of face `iface`.
    pub fn uv(&self, iface: usize, nthvert: usize) -> (r: Array<T>)
        requires
            Self::index_ok(self.spec_facet_tex(), iface * 3 + nthvert, self.spec_tex_coords().len()),
        ensures
            r@ == self.spec_tex_coords()[self.spec_facet_tex()[iface * 3 + nthvert] as int],
    {
        let _n = self.facet_tex.len();
        let k = self.facet_tex[iface * 3 + nthvert] as usize;
        assert(self.spec_tex_coords()[k as int] == self.tex_coord@[k as int]@);
        self.tex_coord[k].clone()
    }

    /// Normal vector of corner `nthvert` of face `iface`.
    pub fn get_norm(&self, iface: usize, nthvert: usize) -> (r: Array<T>)
        requires
            Self::index_ok(self.spec_facet_nrm(), iface * 3 + nthvert, self.spec_norms().len()),
        ensures
            r@ == self.spec_norms()[self.spec_facet_nrm()[iface * 3 + nthvert] as int],
    {
        let _n = self.facet_nrm.len();
        let k = self.facet_nrm[iface * 3 + nthvert] as usize;
        assert(self.spec_norms()[k as int] == self.norms@[k as int]@);
        self.norms[k].clone()
    }

    /// The number of faces: a third of the number of corners, rounded down.
    pub fn nfaces(&self) -> (r: usize)
        ensures
            r == self.spec_facet_vrt().len() / 3,
    {
        self.facet_vrt.len() / 3
    }

    /// The number of vertex positions.
    pub fn nverts(&self) -> (r: usize)
        ensures
            r == self.spec_verts().len(),
    {
        self.verts.len()
    }

    /// The positions of the three corners of face `index`.
    pub fn get_vert(&self, index: usize) -> (r: [Array<T>; 3])
        requires
            Self::index_ok(self.spec_facet_vrt(), index * 3, self.spec_verts().len()),
            Self::index_ok(self.spec_facet_vrt(), index * 3 + 1, self.spec_verts().len()),
            Self::index_ok(self.spec_facet_vrt(), index * 3 + 2, self.spec_verts().len()),
        ensures
            forall|c: int| 0 <= c < 3 ==> (#[trigger] r@[c])@ == self.spec_verts()[self.spec_facet_vrt()[index * 3 + c] as int],
    {
        let _n = self.facet_vrt.len();
        let k1 = self.facet_vrt[index * 3] as usize;
        let k2 = self.facet_vrt[index * 3 + 1] as usize;
        let k3 = self.facet_vrt[index * 3 + 2] as usize;
        assert(self.spec_verts()[k1 as int] == self.verts@[k1 as int]@);
        assert(self.spec_verts()[k2 as int] == self.verts@[k2 as int]@);
        assert(self.spec_verts()[k3 as int] == self.verts@[k3 as int]@);
        let ret1 = self.verts[k1].clone();
        let ret2 = self.verts[k2].clone();
        let ret3 = self.verts[k3].clone();
        let r = [ret1, ret2, ret3];
        assert(r@[0]@ == self.spec_verts()[self.spec_facet_vrt()[index * 3 + 0] as int]);
        r
    }

    /// The diffuse texture's color at pixel `(x, y)`.
    pub fn get_diffuse(&self, x: usize, y: usize) -> (c: TgaColor)
        requires
            self.spec_diffusemap().wf(),
            x < self.spec_diffusemap().spec_width(),
            y < self.spec_diffusemap().spec_height(),
            self.spec_diffusemap().spec_data().len() > 0,
            self.spec_diffusemap().spec_pixel_size() <= 4,
        ensures
            c.spec_size() == self.spec_diffusemap().spec_pixel_size(),
            c.channels().len() == 4,
            forall|i: int| 0 <= i < 4 ==> #[trigger] c.channels()[i] == (
                if i < self.spec_diffusemap().spec_pixel_size() {
                    self.spec_diffusemap().pixel(x as int, y as int)[i]
                } else {
                    255u8
                }),
    {
        self.diffusemap.get(x, y)
    }

    /// The diffuse texture.
    pub fn diffusemap(&self) -> (r: &TgaImage)
        ensures
            *r == self.spec_diffusemap(),
    {
        &self.diffusemap
    }

    /// The normal-map texture.
    pub fn normalmap(&self) -> (r: &TgaImage)
        ensures
            *r == self.spec_normalmap(),
    {
        &self.normalmap
    }
}

impl<T> Default for Model<T> {
    /// No vertices, coordinates, normals or faces, and empty textures.
    fn default() -> (m: Self)
        ensures
            m.spec_verts().len() == 0,
            m.spec_tex_coords().len() == 0,
            m.spec_norms().len() == 0,
            m.spec_facet_vrt().len() == 0,
            m.spec_facet_tex().len() == 0,
            m.spec_facet_nrm().len() == 0,
            m.spec_diffusemap().spec_data().len() == 0,
            m.spec_normalmap().spec_data().len() == 0,
            m.spec_specularmap().spec_data().len() == 0,
    {
        Model {
            verts: Vec::new(),
            tex_coord: Vec::new(),
            norms: Vec::new(),
            facet_vrt: Vec::new(),
            facet_tex: Vec::new(),
            facet_nrm: Vec::new(),
            diffusemap: TgaImage::default(),
            normalmap: TgaImage::default(),
            specularmap: TgaImage::default(),
        }
    }
}

} // verus!
