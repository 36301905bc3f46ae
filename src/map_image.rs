use image::DynamicImage;
use vstd::arithmetic::div_mod::{lemma_fundamental_div_mod, lemma_fundamental_div_mod_converse};
use vstd::arithmetic::mul::lemma_mul_inequality;
use vstd::prelude::*;
use vstd::string::StringExecFns;

verus! {

/// A composited raster image; the cache carries it without looking inside.
#[verifier::external_type_specification]
#[verifier::external_body]
pub struct ExDynamicImage(image::DynamicImage);

/// The tile coordinates of the panels in `entries`, in the same order.
pub open spec fn keys_of<P>(entries: Seq<(i32, i32, P)>) -> Seq<(i32, i32)> {
    entries.map_values(|e: (i32, i32, P)| (e.0, e.1))
}

/// No two entries share tile coordinates.
pub open spec fn keys_unique<P>(entries: Seq<(i32, i32, P)>) -> bool {
    forall|i: int, j: int|
        0 <= i < j < entries.len() ==> (entries[i].0, entries[i].1) != (entries[j].0, entries[j].1)
}

/// The panel stored for tile `(x, y)`, if any.
pub open spec fn lookup<P>(entries: Seq<(i32, i32, P)>, x: i32, y: i32) -> Option<P> {
    if exists|i: int| 0 <= i < entries.len() && entries[i].0 == x && entries[i].1 == y {
        let i = choose|i: int| 0 <= i < entries.len() && entries[i].0 == x && entries[i].1 == y;
        Some(entries[i].2)
    } else {
        None
    }
}

/// The entries after storing `panel` for tile `(x, y)` in a cache of
/// `max_store` entries: a tile already present keeps its panel; a new one is
/// appended, and the oldest entries leave until `max_store` remain.
pub open spec fn inserted<P>(entries: Seq<(i32, i32, P)>, max_store: nat, x: i32, y: i32, panel: P) -> Seq<(i32, i32, P)> {
    if lookup(entries, x, y).is_some() {
        entries
    } else {
        let grown = entries.push((x, y, panel));
        if grown.len() > max_store {
            grown.skip(grown.len() - max_store)
        } else {
            grown
        }
    }
}

/// A request for tile `(x, y)`: the stored panel on a hit; on a miss the
/// freshly composed `fresh`, which is then stored. Gives the panel served and
/// the entries after.
pub open spec fn request<P>(entries: Seq<(i32, i32, P)>, max_store: nat, x: i32, y: i32, fresh: P) -> (P, Seq<(i32, i32, P)>) {
    match lookup(entries, x, y) {
        Some(p) => (p, entries),
        None => (fresh, inserted(entries, max_store, x, y, fresh)),
    }
}

proof fn lemma_lookup_at<P>(entries: Seq<(i32, i32, P)>, i: int)
    requires
        keys_unique(entries),
        0 <= i < entries.len(),
    ensures
        lookup(entries, entries[i].0, entries[i].1) == Some(entries[i].2),
{
    let x = entries[i].0;
    let y = entries[i].1;
    assert(exists|c: int| 0 <= c < entries.len() && entries[c].0 == x && entries[c].1 == y);
    let c = choose|c: int| 0 <= c < entries.len() && entries[c].0 == x && entries[c].1 == y;
    if c < i {
        assert((entries[c].0, entries[c].1) != (entries[i].0, entries[i].1));
    } else if i < c {
        assert((entries[i].0, entries[i].1) != (entries[c].0, entries[c].1));
    }
}

proof fn lemma_inserted_shape<P>(entries: Seq<(i32, i32, P)>, max_store: nat, x: i32, y: i32, panel: P)
    requires
        max_store >= 1,
        entries.len() <= max_store,
        keys_unique(entries),
        lookup(entries, x, y).is_none(),
    ensures
        ({
            let n = inserted(entries, max_store, x, y, panel);
            let a = entries.len() + 1 - n.len();
            &&& keys_unique(n)
            &&& n.len() <= max_store
            &&& a == (if entries.len() == max_store { 1int } else { 0int })
            &&& n.last() == (x, y, panel)
            &&& forall|i: int| 0 <= i < n.len() - 1 ==> n[i] == entries[i + a]
        }),
{
    let grown = entries.push((x, y, panel));
    let n = inserted(entries, max_store, x, y, panel);
    let a = entries.len() + 1 - n.len();
    assert forall|i: int, j: int| 0 <= i < j < n.len() implies (n[i].0, n[i].1) != (n[j].0, n[j].1) by {
        assert(n[i] == grown[i + a] && n[j] == grown[j + a]);
        if j + a == entries.len() {
            if grown[i + a].0 == x && grown[i + a].1 == y {
                assert(entries[i + a] == grown[i + a]);
            }
        }
    }
}

/// A repeated request for a tile is a hit: after the first request, the next
/// one for the same tile serves the very panel the first one served and leaves
/// the cache as it was, so nothing is fetched or composed again.
pub proof fn repeated_request_is_a_hit<P>(entries: Seq<(i32, i32, P)>, max_store: nat, x: i32, y: i32, fresh: P, again: P)
    requires
        max_store >= 1,
        entries.len() <= max_store,
        keys_unique(entries),
    ensures
        ({
            let (first, after) = request(entries, max_store, x, y, fresh);
            &&& lookup(after, x, y) == Some(first)
            &&& request(after, max_store, x, y, again) == (first, after)
        }),
{
    if lookup(entries, x, y).is_none() {
        lemma_inserted_shape(entries, max_store, x, y, fresh);
        let n = inserted(entries, max_store, x, y, fresh);
        lemma_lookup_at(n, n.len() - 1);
    }
}

/// Storing a new tile in a full cache evicts the earliest-inserted entry,
/// however recently it was looked up, and keeps every other one; a later
/// request for the evicted tile is a miss again.
pub proof fn full_cache_evicts_oldest<P>(entries: Seq<(i32, i32, P)>, max_store: nat, x: i32, y: i32, panel: P)
    requires
        max_store >= 1,
        entries.len() == max_store,
        keys_unique(entries),
        lookup(entries, x, y).is_none(),
    ensures
        ({
            let n = inserted(entries, max_store, x, y, panel);
            &&& lookup(n, entries[0].0, entries[0].1).is_none()
            &&& forall|i: int| 1 <= i < entries.len() ==> lookup(n, entries[i].0, entries[i].1) == Some(entries[i].2)
            &&& lookup(n, x, y) == Some(panel)
        }),
{
    lemma_inserted_shape(entries, max_store, x, y, panel);
    let n = inserted(entries, max_store, x, y, panel);
    lemma_lookup_at(n, n.len() - 1);
    assert forall|i: int| 1 <= i < entries.len() implies lookup(n, entries[i].0, entries[i].1) == Some(entries[i].2) by {
        assert(n[i - 1] == entries[i]);
        lemma_lookup_at(n, i - 1);
    }
    let x0 = entries[0].0;
    let y0 = entries[0].1;
    if exists|c: int| 0 <= c < n.len() && n[c].0 == x0 && n[c].1 == y0 {
        let c = choose|c: int| 0 <= c < n.len() && n[c].0 == x0 && n[c].1 == y0;
        if c < n.len() - 1 {
            assert(n[c] == entries[c + 1]);
            assert((entries[0].0, entries[0].1) != (entries[c + 1].0, entries[c + 1].1));
        } else {
            lemma_lookup_at(entries, 0);
        }
    }
}

/// `size / tile_size` rounded up, for a positive `size`.
pub open spec fn tile_width(size: int, tile_size: int) -> int {
    (size - 1) / tile_size + 1
}

proof fn lemma_tile_width(size: int, tile_size: int)
    requires
        size >= 1,
        tile_size >= 1,
    ensures
        1 <= tile_width(size, tile_size) <= size,
        (tile_width(size, tile_size) - 1) * tile_size < size <= tile_width(size, tile_size) * tile_size,
{
    lemma_fundamental_div_mod(size - 1, tile_size);
    let q = (size - 1) / tile_size;
    let m = (size - 1) % tile_size;
    assert(q * tile_size <= size - 1 < (q + 1) * tile_size && 0 <= q <= size - 1) by (nonlinear_arith)
        requires size - 1 == tile_size * q + m, 0 <= m < tile_size, tile_size >= 1, size >= 1;
}

/// One tile of a panel: its tile coordinates and where it goes in the panel.
#[derive(Clone, Copy, Debug, PartialEq, Eq, Structural)]
pub struct PanelTile {
    pub tile_x: i32,
    pub tile_y: i32,
    pub offset_x: u32,
    pub offset_y: u32,
}

/// Tile `n` of the panel around `(tile_x, tile_y)` that reaches out `w` tiles:
/// the `(2w+1)^2` tiles go column by column, each column top to bottom.
pub open spec fn panel_tile(tile_x: int, tile_y: int, w: int, tile_size: int, n: int) -> PanelTile {
    let side = 2 * w + 1;
    let a = n / side;
    let b = n % side;
    PanelTile {
        tile_x: (tile_x - w + a) as i32,
        tile_y: (tile_y - w + b) as i32,
        offset_x: (a * tile_size) as u32,
        offset_y: (b * tile_size) as u32,
    }
}

/// The side of a panel that reaches out `tile_calc` tiles, in pixels.
pub fn panel_size(tile_calc: u32, tile_size: u32) -> (r: u32)
    requires
        tile_size >= 1,
        (2 * tile_calc + 1) * tile_size <= u32::MAX,
    ensures
        r == (2 * tile_calc + 1) * tile_size,
{
    proof {
        lemma_mul_inequality(1, tile_size as int, 2 * tile_calc + 1);
        assert(tile_size * (2 * tile_calc + 1) == (2 * tile_calc + 1) * tile_size) by (nonlinear_arith);
    }
    (2 * tile_calc + 1) * tile_size
}

/// The tiles that make up the panel around `(tile_x, tile_y)` reaching out
/// `tile_calc` tiles, with the pixel offset of each in the panel.
pub fn panel_tiles(tile_x: i32, tile_y: i32, tile_calc: u32, tile_size: u32) -> (r: Vec<PanelTile>)
    requires
        i32::MIN <= tile_x - tile_calc,
        tile_x + tile_calc <= i32::MAX,
        i32::MIN <= tile_y - tile_calc,
        tile_y + tile_calc <= i32::MAX,
        (2 * tile_calc + 1) * tile_size <= u32::MAX,
    ensures
        r@.len() == (2 * tile_calc + 1) * (2 * tile_calc + 1),
        forall|n: int| 0 <= n < r@.len() ==> r@[n] == panel_tile(tile_x as int, tile_y as int, tile_calc as int, tile_size as int, n),
{
    let side: u32 = 2 * tile_calc + 1;
    let ghost w = tile_calc as int;
    let mut out: Vec<PanelTile> = Vec::new();
    let mut a: u32 = 0;
    while a < side
        invariant
            side == 2 * tile_calc + 1,
            w == tile_calc,
            a <= side,
            out@.len() == a * side,
            i32::MIN <= tile_x - tile_calc,
            tile_x + tile_calc <= i32::MAX,
            i32::MIN <= tile_y - tile_calc,
            tile_y + tile_calc <= i32::MAX,
            side * tile_size <= u32::MAX,
            forall|n: int| 0 <= n < out@.len() ==> out@[n] == panel_tile(tile_x as int, tile_y as int, w, tile_size as int, n),
        decreases side - a,
    {
        let mut b: u32 = 0;
        while b < side
            invariant
                side == 2 * tile_calc + 1,
                w == tile_calc,
                a < side,
                b <= side,
                out@.len() == a * side + b,
                i32::MIN <= tile_x - tile_calc,
                tile_x + tile_calc <= i32::MAX,
                i32::MIN <= tile_y - tile_calc,
                tile_y + tile_calc <= i32::MAX,
                side * tile_size <= u32::MAX,
                forall|n: int| 0 <= n < out@.len() ==> out@[n] == panel_tile(tile_x as int, tile_y as int, w, tile_size as int, n),
            decreases side - b,
        {
            proof {
                lemma_mul_inequality(a as int, side as int, tile_size as int);
                lemma_mul_inequality(b as int, side as int, tile_size as int);
                assert(side * tile_size == tile_size * side) by (nonlinear_arith);
                lemma_fundamental_div_mod_converse(a * side + b, side as int, a as int, b as int);
            }
            let t = PanelTile {
                tile_x: (tile_x as i64 - tile_calc as i64 + a as i64) as i32,
                tile_y: (tile_y as i64 - tile_calc as i64 + b as i64) as i32,
                offset_x: a * tile_size,
                offset_y: b * tile_size,
            };
            out.push(t);
            b += 1;
        }
        assert(out@.len() == (a + 1) * side) by (nonlinear_arith)
            requires out@.len() == a * side + side;
        a += 1;
    }
    assert(out@.len() == side * side);
    out
}

/// Where the output frame's window starts in the panel on one axis, so that
/// it is centred on pixel `pixel` of the centre tile.
pub fn crop_origin(map_image_size: u32, tile_size: u32, pixel: i32) -> (r: u32)
    requires
        map_image_size >= 1,
        tile_size >= 1,
        0 <= pixel <= tile_size,
        (2 * tile_width(map_image_size as int, tile_size as int) + 1) * tile_size <= u32::MAX,
    ensures
        r == tile_width(map_image_size as int, tile_size as int) * tile_size + pixel - map_image_size / 2,
        r + map_image_size <= (2 * tile_width(map_image_size as int, tile_size as int) + 1) * tile_size,
{
    let w = MapBaseImage::use_tile_width(map_image_size, tile_size);
    proof {
        assert((2 * w + 1) * tile_size == w * tile_size + tile_size + w * tile_size) by (nonlinear_arith);
    }
    w * tile_size + pixel as u32 - map_image_size / 2
}

/// The marker icon for an output frame of `map_image_size` pixels: its side,
/// a twentieth of the frame, and the offset on each axis that centres it.
pub fn marker_placement(map_image_size: u32) -> (r: (u32, u32))
    ensures
        r.0 == map_image_size / 20,
        r.1 == map_image_size / 2 - map_image_size / 40,
        r.1 + r.0 <= map_image_size,
{
    (map_image_size / 20, map_image_size / 2 - map_image_size / 40)
}

/// The tile server that map tiles are fetched from.
pub const JAPAN_MAP_URL: &'static str = "https://cyberjapandata.gsi.go.jp/xyz/std/";

/// The decimal digit `d`.
pub open spec fn digit_char(d: nat) -> char {
    if d == 0 { '0' } else if d == 1 { '1' } else if d == 2 { '2' } else if d == 3 { '3' }
    else if d == 4 { '4' } else if d == 5 { '5' } else if d == 6 { '6' } else if d == 7 { '7' }
    else if d == 8 { '8' } else { '9' }
}

/// The decimal digits of `n`, without leading zeros.
pub open spec fn digits(n: nat) -> Seq<char>
    decreases n,
{
    if n < 10 {
        seq![digit_char(n)]
    } else {
        digits(n / 10).push(digit_char(n % 10))
    }
}

/// `n` written in decimal, with a minus sign when negative.
pub open spec fn decimal_text(n: int) -> Seq<char> {
    if n < 0 {
        seq!['-'] + digits((-n) as nat)
    } else {
        digits(n as nat)
    }
}

/// Relies on std's `Display` for `i64`, through `to_string`: an integer is
/// written in decimal, with a minus sign when negative.
#[verifier::external_body]
fn decimal(n: i64) -> (r: String)
    ensures
        r@ == decimal_text(n as int),
{
    n.to_string()
}

/// The name a tile is stored under: `<zoom>-<tile_x>-<tile_y>.png`.
pub open spec fn tile_file_text(zoom: int, tile_x: int, tile_y: int) -> Seq<char> {
    decimal_text(zoom) + seq!['-'] + decimal_text(tile_x) + seq!['-'] + decimal_text(tile_y)
        + seq!['.', 'p', 'n', 'g']
}

/// Where a tile is fetched from: `<base><zoom>/<tile_x>/<tile_y>.png`.
pub open spec fn tile_url_text(base: Seq<char>, zoom: int, tile_x: int, tile_y: int) -> Seq<char> {
    base + decimal_text(zoom) + seq!['/'] + decimal_text(tile_x) + seq!['/'] + decimal_text(tile_y)
        + seq!['.', 'p', 'n', 'g']
}

/// The file name that tile `(tile_x, tile_y)` at `zoom` is stored under.
pub fn tile_file_name(zoom: u32, tile_x: i32, tile_y: i32) -> (r: String)
    ensures
        r@ == tile_file_text(zoom as int, tile_x as int, tile_y as int),
{
    proof {
        reveal_strlit("-");
        reveal_strlit(".png");
    }
    let mut r = decimal(zoom as i64);
    r.append("-");
    r.append(decimal(tile_x as i64).as_str());
    r.append("-");
    r.append(decimal(tile_y as i64).as_str());
    r.append(".png");
    r
}

/// The address that tile `(tile_x, tile_y)` at `zoom` is fetched from.
pub fn tile_url(zoom: u32, tile_x: i32, tile_y: i32) -> (r: String)
    ensures
        r@ == tile_url_text(JAPAN_MAP_URL@, zoom as int, tile_x as int, tile_y as int),
{
    proof {
        reveal_strlit("/");
        reveal_strlit(".png");
    }
    let mut r = String::from_str(JAPAN_MAP_URL);
    r.append(decimal(zoom as i64).as_str());
    r.append("/");
    r.append(decimal(tile_x as i64).as_str());
    r.append("/");
    r.append(decimal(tile_y as i64).as_str());
    r.append(".png");
    r
}

/// The composited panels of the most recent tile coordinates, oldest first.
/// A lookup does not reorder them: the oldest entry is the first to leave.
pub struct MapBaseImage {
    max_store: usize,
    tile_dir: String,
    cache: Vec<(i32, i32, DynamicImage)>,
}

impl MapBaseImage {
    pub closed spec fn entries(&self) -> Seq<(i32, i32, DynamicImage)> {
        self.cache@
    }

    pub closed spec fn capacity(&self) -> nat {
        self.max_store as nat
    }

    pub closed spec fn tile_dir_view(&self) -> Seq<char> {
        self.tile_dir@
    }

    pub closed spec fn wf(&self) -> bool {
        &&& self.max_store >= 1
        &&& self.cache.len() <= self.max_store
        &&& keys_unique(self.cache@)
    }

    /// An empty cache of ten panels for the tiles stored under `tile_dir`.
    pub fn new(tile_dir: String) -> (r: Self)
        ensures
            r.wf(),
            r.entries() == Seq::<(i32, i32, DynamicImage)>::empty(),
            r.capacity() == 10,
            r.tile_dir_view() == tile_dir@,
    {
        MapBaseImage { max_store: 10, tile_dir, cache: Vec::new() }
    }

    /// How many tiles a panel reaches out from its centre tile so that an
    /// output frame of `map_image_size` pixels fits around any pixel of that
    /// tile: `map_image_size / tile_size`, rounded up.
    pub fn use_tile_width(map_image_size: u32, tile_size: u32) -> (r: u32)
        requires
            map_image_size >= 1,
            tile_size >= 1,
        ensures
            r == tile_width(map_image_size as int, tile_size as int),
            (r - 1) * tile_size < map_image_size <= r * tile_size,
    {
        proof {
            lemma_tile_width(map_image_size as int, tile_size as int);
        }
        (map_image_size - 1) / tile_size + 1
    }

    /// The directory that tiles are stored in.
    pub fn tile_dir(&self) -> (r: &str)
        ensures
            r@ == self.tile_dir_view(),
    {
        self.tile_dir.as_str()
    }

    /// The panel stored for tile `(tile_x, tile_y)`, if any.
    pub fn get_image(&self, tile_x: i32, tile_y: i32) -> (r: Option<&DynamicImage>)
        requires
            self.wf(),
        ensures
            match r {
                Some(v) => lookup(self.entries(), tile_x, tile_y) == Some(*v),
                None => lookup(self.entries(), tile_x, tile_y).is_none(),
            },
    {
        let mut i: usize = 0;
        while i < self.cache.len()
            invariant
                self.wf(),
                0 <= i <= self.cache.len(),
                forall|j: int| 0 <= j < i ==> !(self.cache@[j].0 == tile_x && self.cache@[j].1 == tile_y),
            decreases self.cache.len() - i,
        {
            if self.cache[i].0 == tile_x && self.cache[i].1 == tile_y {
                let ghost e = self.cache@;
                proof {
                    let c = choose|c: int| 0 <= c < e.len() && e[c].0 == tile_x && e[c].1 == tile_y;
                    if c != i as int {
                        assert(c > i);
                        assert(keys_unique(e));
                        assert(0 <= i < c < e.len());
                        assert((e[i as int].0, e[i as int].1) != (e[c].0, e[c].1));
                    }
                }
                return Some(&self.cache[i].2);
            }
            i += 1;
        }
        assert(!exists|j: int|
            0 <= j < self.cache@.len() && self.cache@[j].0 == tile_x && self.cache@[j].1 == tile_y);
        None
    }

    /// Stores `image` for tile `(tile_x, tile_y)` unless that tile is present;
    /// beyond capacity the oldest entries leave.
    pub fn put_image(&mut self, tile_x: i32, tile_y: i32, image: DynamicImage)
        requires
            old(self).wf(),
        ensures
            final(self).wf(),
            final(self).capacity() == old(self).capacity(),
            final(self).tile_dir_view() == old(self).tile_dir_view(),
            final(self).entries() == inserted(old(self).entries(), old(self).capacity(), tile_x, tile_y, image),
    {
        if self.get_image(tile_x, tile_y).is_none() {
            let ghost old_entries = self.cache@;
            self.cache.push((tile_x, tile_y, image));
            let ghost grown = self.cache@;
            assert(keys_unique(grown)) by {
                assert forall|i: int, j: int| 0 <= i < j < grown.len() implies
                    (grown[i].0, grown[i].1) != (grown[j].0, grown[j].1) by {
                    if j == grown.len() - 1 {
                        assert(old_entries[i] == grown[i]);
                        if grown[i].0 == tile_x && grown[i].1 == tile_y {
                            assert(exists|c: int| 0 <= c < old_entries.len() && old_entries[c].0 == tile_x && old_entries[c].1 == tile_y);
                        }
                    } else {
                        assert(old_entries[i] == grown[i] && old_entries[j] == grown[j]);
                    }
                }
            }
            assert(grown.skip(0) =~= grown);
            while self.max_store < self.cache.len()
                invariant
                    old(self).max_store == self.max_store,
                    self.max_store >= 1,
                    grown.len() <= self.max_store + 1,
                    keys_unique(grown),
                    self.cache.len() <= grown.len(),
                    self.cache.len() >= self.max_store || self.cache.len() == grown.len(),
                    self.cache@ == grown.skip(grown.len() - self.cache.len()),
                    self.tile_dir == old(self).tile_dir,
                decreases self.cache.len(),
            {
                self.cache.remove(0);
                assert(self.cache@ =~= grown.skip(grown.len() - self.cache.len()));
            }
            let ghost fin = self.cache@;
            assert(keys_unique(fin)) by {
                let a = grown.len() - fin.len();
                assert forall|i: int, j: int| 0 <= i < j < fin.len() implies
                    (fin[i].0, fin[i].1) != (fin[j].0, fin[j].1) by {
                    assert(fin[i] == grown[i + a] && fin[j] == grown[j + a]);
                }
            }
        }
    }
}

} // verus!
