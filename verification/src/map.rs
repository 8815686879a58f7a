//! The map model: slot arenas of vertices, linedefs, sidedefs, sectors and
//! things, addressed by typed ids. A deleted element leaves an empty slot, so
//! a stale id resolves to `None` instead of to a different element.

use vstd::prelude::*;

verus! {

/// Id of a vertex: its slot in `MapData::vertices`.
#[derive(Clone, Copy, Debug, PartialEq, Eq, Structural, Hash)]
pub struct VertexId(pub usize);

/// Id of a linedef: its slot in `MapData::linedefs`.
#[derive(Clone, Copy, Debug, PartialEq, Eq, Structural, Hash)]
pub struct LinedefId(pub usize);

/// Id of a sidedef: its slot in `MapData::sidedefs`.
#[derive(Clone, Copy, Debug, PartialEq, Eq, Structural, Hash)]
pub struct SidedefId(pub usize);

/// Id of a sector: its slot in `MapData::sectors`.
#[derive(Clone, Copy, Debug, PartialEq, Eq, Structural, Hash)]
pub struct SectorId(pub usize);

/// Id of a thing: its slot in `MapData::things`.
#[derive(Clone, Copy, Debug, PartialEq, Eq, Structural, Hash)]
pub struct ThingId(pub usize);

/// Eight-byte lump-style texture name, NUL padded.
#[derive(Clone, Copy, Debug)]
pub struct TextureName(pub [u8; 8]);

#[derive(Clone, Copy, Debug, PartialEq, Eq, Structural)]
pub struct MapVertex {
    pub x: i32,
    pub y: i32,
}

#[derive(Clone, Copy, Debug)]
pub struct MapLinedef {
    pub v1: VertexId,
    pub v2: VertexId,
    pub flags: u16,
    pub special: u16,
    pub args: [u8; 5],
    pub tag: u16,
    /// Front (right-hand) sidedef.
    pub right: Option<SidedefId>,
    /// Back (left-hand) sidedef.
    pub left: Option<SidedefId>,
}

#[derive(Clone, Copy, Debug)]
pub struct MapSidedef {
    pub sector: SectorId,
    pub x_offset: i16,
    pub y_offset: i16,
    pub upper_texture: TextureName,
    pub lower_texture: TextureName,
    pub middle_texture: TextureName,
}

#[derive(Clone, Debug)]
pub struct MapSector {
    pub floor_height: i16,
    pub ceiling_height: i16,
    pub floor_texture: TextureName,
    pub ceiling_texture: TextureName,
    pub light: i16,
    pub special: u16,
    pub tag: u16,
    /// Derived reverse index: the sidedefs that face into this sector.
    pub sidedefs: Vec<SidedefId>,
}

#[derive(Clone, Copy, Debug, PartialEq, Eq, Structural)]
pub struct MapThing {
    pub x: i32,
    pub y: i32,
    pub angle: i16,
    pub kind: u16,
    pub flags: u16,
    /// Thing id (Hexen format; 0 in Doom format).
    pub tid: u16,
}

/// A whole map. Each arena is a vector of slots; `None` is an empty slot.
pub struct MapData {
    pub vertices: Vec<Option<MapVertex>>,
    pub linedefs: Vec<Option<MapLinedef>>,
    pub sidedefs: Vec<Option<MapSidedef>>,
    pub sectors: Vec<Option<MapSector>>,
    pub things: Vec<Option<MapThing>>,
}

/// Slot lookup in an arena viewed as a sequence.
pub open spec fn slot<T>(s: Seq<Option<T>>, i: int) -> Option<T> {
    if 0 <= i < s.len() {
        s[i]
    } else {
        None
    }
}

impl MapData {
    pub open spec fn vertex_at(&self, id: VertexId) -> Option<MapVertex> {
        slot(self.vertices@, id.0 as int)
    }

    pub open spec fn linedef_at(&self, id: LinedefId) -> Option<MapLinedef> {
        slot(self.linedefs@, id.0 as int)
    }

    pub open spec fn sidedef_at(&self, id: SidedefId) -> Option<MapSidedef> {
        slot(self.sidedefs@, id.0 as int)
    }

    pub open spec fn sector_at(&self, id: SectorId) -> Option<MapSector> {
        slot(self.sectors@, id.0 as int)
    }

    pub open spec fn thing_at(&self, id: ThingId) -> Option<MapThing> {
        slot(self.things@, id.0 as int)
    }

    /// The sector that a (possibly absent) sidedef faces into, if both exist
    /// as far as the sidedef goes.
    pub open spec fn side_sector(&self, side: Option<SidedefId>) -> Option<SectorId> {
        match side {
            Some(sid) => match self.sidedef_at(sid) {
                Some(s) => Some(s.sector),
                None => None,
            },
            None => None,
        }
    }

    /// An empty map.
    pub fn new() -> (m: MapData)
        ensures
            m.vertices@.len() == 0,
            m.linedefs@.len() == 0,
            m.sidedefs@.len() == 0,
            m.sectors@.len() == 0,
            m.things@.len() == 0,
    {
        MapData {
            vertices: Vec::new(),
            linedefs: Vec::new(),
            sidedefs: Vec::new(),
            sectors: Vec::new(),
            things: Vec::new(),
        }
    }

    pub fn vertex(&self, id: VertexId) -> (r: Option<MapVertex>)
        ensures
            r == self.vertex_at(id),
    {
        if id.0 < self.vertices.len() {
            self.vertices[id.0]
        } else {
            None
        }
    }

    pub fn linedef(&self, id: LinedefId) -> (r: Option<MapLinedef>)
        ensures
            r == self.linedef_at(id),
    {
        if id.0 < self.linedefs.len() {
            self.linedefs[id.0]
        } else {
            None
        }
    }

    pub fn sidedef(&self, id: SidedefId) -> (r: Option<MapSidedef>)
        ensures
            r == self.sidedef_at(id),
    {
        if id.0 < self.sidedefs.len() {
            self.sidedefs[id.0]
        } else {
            None
        }
    }

    pub fn sector(&self, id: SectorId) -> (r: Option<&MapSector>)
        ensures
            match r {
                Some(s) => self.sector_at(id) == Some(*s),
                None => self.sector_at(id) is None,
            },
    {
        if id.0 < self.sectors.len() {
            match &self.sectors[id.0] {
                Some(s) => Some(s),
                None => None,
            }
        } else {
            None
        }
    }

    pub fn thing(&self, id: ThingId) -> (r: Option<MapThing>)
        ensures
            r == self.thing_at(id),
    {
        if id.0 < self.things.len() {
            self.things[id.0]
        } else {
            None
        }
    }

    /// Sector of the sidedef `side`, when the sidedef exists.
    pub fn side_sector_of(&self, side: Option<SidedefId>) -> (r: Option<SectorId>)
        ensures
            r == self.side_sector(side),
    {
        match side {
            Some(sid) => match self.sidedef(sid) {
                Some(s) => Some(s.sector),
                None => None,
            },
            None => None,
        }
    }

    pub fn insert_vertex(&mut self, v: MapVertex) -> (id: VertexId)
        requires
            old(self).vertices@.len() < usize::MAX,
        ensures
            id.0 == old(self).vertices@.len(),
            final(self).vertices@ == old(self).vertices@.push(Some(v)),
            final(self).linedefs@ == old(self).linedefs@,
            final(self).sidedefs@ == old(self).sidedefs@,
            final(self).sectors@ == old(self).sectors@,
            final(self).things@ == old(self).things@,
    {
        let id = VertexId(self.vertices.len());
        self.vertices.push(Some(v));
        id
    }

    pub fn insert_linedef(&mut self, l: MapLinedef) -> (id: LinedefId)
        requires
            old(self).linedefs@.len() < usize::MAX,
        ensures
            id.0 == old(self).linedefs@.len(),
            final(self).linedefs@ == old(self).linedefs@.push(Some(l)),
            final(self).vertices@ == old(self).vertices@,
            final(self).sidedefs@ == old(self).sidedefs@,
            final(self).sectors@ == old(self).sectors@,
            final(self).things@ == old(self).things@,
    {
        let id = LinedefId(self.linedefs.len());
        self.linedefs.push(Some(l));
        id
    }

    pub fn insert_sidedef(&mut self, s: MapSidedef) -> (id: SidedefId)
        requires
            old(self).sidedefs@.len() < usize::MAX,
        ensures
            id.0 == old(self).sidedefs@.len(),
            final(self).sidedefs@ == old(self).sidedefs@.push(Some(s)),
            final(self).vertices@ == old(self).vertices@,
            final(self).linedefs@ == old(self).linedefs@,
            final(self).sectors@ == old(self).sectors@,
            final(self).things@ == old(self).things@,
    {
        let id = SidedefId(self.sidedefs.len());
        self.sidedefs.push(Some(s));
        id
    }

    pub fn insert_sector(&mut self, s: MapSector) -> (id: SectorId)
        requires
            old(self).sectors@.len() < usize::MAX,
        ensures
            id.0 == old(self).sectors@.len(),
            final(self).sectors@ == old(self).sectors@.push(Some(s)),
            final(self).vertices@ == old(self).vertices@,
            final(self).linedefs@ == old(self).linedefs@,
            final(self).sidedefs@ == old(self).sidedefs@,
            final(self).things@ == old(self).things@,
    {
        let id = SectorId(self.sectors.len());
        self.sectors.push(Some(s));
        id
    }

    pub fn insert_thing(&mut self, t: MapThing) -> (id: ThingId)
        requires
            old(self).things@.len() < usize::MAX,
        ensures
            id.0 == old(self).things@.len(),
            final(self).things@ == old(self).things@.push(Some(t)),
            final(self).vertices@ == old(self).vertices@,
            final(self).linedefs@ == old(self).linedefs@,
            final(self).sidedefs@ == old(self).sidedefs@,
            final(self).sectors@ == old(self).sectors@,
    {
        let id = ThingId(self.things.len());
        self.things.push(Some(t));
        id
    }
    /// Empty the slot of a vertex, giving back what it held.
    pub fn remove_vertex(&mut self, id: VertexId) -> (r: Option<MapVertex>)
        ensures
            r == old(self).vertex_at(id),
            final(self).vertices@ == if id.0 < old(self).vertices@.len() {
                old(self).vertices@.update(id.0 as int, None)
            } else {
                old(self).vertices@
            },
            final(self).linedefs@ == old(self).linedefs@,
            final(self).sidedefs@ == old(self).sidedefs@,
            final(self).sectors@ == old(self).sectors@,
            final(self).things@ == old(self).things@,
    {
        if id.0 < self.vertices.len() {
            let r = self.vertices[id.0];
            self.vertices.set(id.0, None);
            r
        } else {
            None
        }
    }

    /// Empty the slot of a linedef, giving back what it held.
    pub fn remove_linedef(&mut self, id: LinedefId) -> (r: Option<MapLinedef>)
        ensures
            r == old(self).linedef_at(id),
            final(self).linedefs@ == if id.0 < old(self).linedefs@.len() {
                old(self).linedefs@.update(id.0 as int, None)
            } else {
                old(self).linedefs@
            },
            final(self).vertices@ == old(self).vertices@,
            final(self).sidedefs@ == old(self).sidedefs@,
            final(self).sectors@ == old(self).sectors@,
            final(self).things@ == old(self).things@,
    {
        if id.0 < self.linedefs.len() {
            let r = self.linedefs[id.0];
            self.linedefs.set(id.0, None);
            r
        } else {
            None
        }
    }
}

} // verus!
