//! What a render reads from outside the node tree: font metrics and the
//! native sizes of images.

use vstd::prelude::*;
use vstd::string::*;

verus! {

/// Metrics of one font family, in thousandths of the font size: the advance of
/// a glyph and the height of a line.
#[derive(Debug, Clone, PartialEq, Eq)]
pub struct FontMetrics {
    pub family: String,
    pub advance: u16,
    pub line_height: u16,
}

/// An image that was loaded: the path it was loaded from and its size in pixels.
#[derive(Debug, Clone, PartialEq, Eq)]
pub struct ImageInfo {
    pub path: String,
    pub width: u32,
    pub height: u32,
}

/// The tables that every slide of a deck shares. They are only read while a
/// deck is rendered.
#[derive(Debug, Clone, PartialEq, Eq)]
pub struct Resources {
    pub fonts: Vec<FontMetrics>,
    pub images: Vec<ImageInfo>,
}

/// `i` is the first index at which `keys` holds `name`.
pub open spec fn is_first_match(keys: Seq<Seq<char>>, name: Seq<char>, i: int) -> bool {
    &&& 0 <= i < keys.len()
    &&& keys[i] == name
    &&& forall|j: int| 0 <= j < i ==> keys[j] != name
}

/// The first index at which `keys` holds `name`.
pub open spec fn first_match(keys: Seq<Seq<char>>, name: Seq<char>) -> Option<int> {
    if exists|i: int| is_first_match(keys, name, i) {
        Some(choose|i: int| is_first_match(keys, name, i))
    } else {
        None
    }
}

/// There is at most one first match, and there is one as soon as `name` occurs.
pub proof fn lemma_first_match(keys: Seq<Seq<char>>, name: Seq<char>)
    ensures
        forall|i: int| is_first_match(keys, name, i) ==> first_match(keys, name) == Some(i),
        first_match(keys, name) matches Some(i) ==> is_first_match(keys, name, i),
        first_match(keys, name) is None ==> forall|j: int| 0 <= j < keys.len() ==> keys[j] != name,
{
    assert forall|i: int| is_first_match(keys, name, i) implies first_match(keys, name) == Some(
        i,
    ) by {
        let c = choose|i: int| is_first_match(keys, name, i);
        assert(is_first_match(keys, name, c));
        if c < i {
            assert(keys[c] == name);
        }
        if i < c {
            assert(keys[i] == name);
        }
    }
    if first_match(keys, name) is None {
        lemma_no_match(keys, name, keys.len() as int);
    }
}

/// Where no index is a first match, `name` does not occur.
proof fn lemma_no_match(keys: Seq<Seq<char>>, name: Seq<char>, n: int)
    requires
        0 <= n <= keys.len(),
        forall|i: int| !is_first_match(keys, name, i),
    ensures
        forall|j: int| 0 <= j < n ==> keys[j] != name,
    decreases n,
{
    if n > 0 {
        lemma_no_match(keys, name, n - 1);
        if keys[n - 1] == name {
            assert(is_first_match(keys, name, n - 1));
        }
    }
}

/// Width of a block of text whose longest line has `chars` characters.
pub open spec fn text_block_width(chars: int, size: int, advance: int) -> int {
    chars * size * advance / 1000
}

/// Height of one line of text.
pub open spec fn text_line_height(size: int, line_height: int) -> int {
    size * line_height / 1000
}

impl FontMetrics {
    pub fn new(family: &str, advance: u16, line_height: u16) -> (r: Self)
        ensures
            r.family@ == family@,
            r.advance == advance,
            r.line_height == line_height,
    {
        FontMetrics { family: String::from_str(family), advance, line_height }
    }
}

impl ImageInfo {
    pub fn new(path: &str, width: u32, height: u32) -> (r: Self)
        ensures
            r.path@ == path@,
            r.width == width,
            r.height == height,
    {
        ImageInfo { path: String::from_str(path), width, height }
    }
}

impl Resources {
    /// The names of the font families, in table order.
    pub open spec fn font_names(&self) -> Seq<Seq<char>> {
        Seq::new(self.fonts@.len(), |i: int| self.fonts@[i].family@)
    }

    /// The paths of the images, in table order.
    pub open spec fn image_paths(&self) -> Seq<Seq<char>> {
        Seq::new(self.images@.len(), |i: int| self.images@[i].path@)
    }

    /// The metrics of the family of that name: the first entry that has it.
    pub open spec fn font(&self, family: Seq<char>) -> Option<FontMetrics> {
        match first_match(self.font_names(), family) {
            Some(i) => Some(self.fonts@[i]),
            None => None,
        }
    }

    /// The image loaded from that path: the first entry that has it.
    pub open spec fn image(&self, path: Seq<char>) -> Option<ImageInfo> {
        match first_match(self.image_paths(), path) {
            Some(i) => Some(self.images@[i]),
            None => None,
        }
    }

    /// Tables without fonts or images.
    pub fn new() -> (r: Self)
        ensures
            r.fonts@.len() == 0,
            r.images@.len() == 0,
    {
        Resources { fonts: Vec::new(), images: Vec::new() }
    }

    /// The metrics of a font family, `None` where the table does not have it.
    pub fn find_font(&self, family: &String) -> (r: Option<&FontMetrics>)
        ensures
            match r {
                Some(f) => self.font(family@) == Some(*f),
                None => self.font(family@) is None,
            },
    {
        let ghost keys = self.font_names();
        let mut i: usize = 0;
        while i < self.fonts.len()
            invariant
                i <= self.fonts.len(),
                keys == self.font_names(),
                forall|j: int| 0 <= j < i ==> keys[j] != family@,
            decreases self.fonts.len() - i,
        {
            if self.fonts[i].family == *family {
                proof {
                    assert(is_first_match(keys, family@, i as int));
                    lemma_first_match(keys, family@);
                }
                return Some(&self.fonts[i]);
            }
            i += 1;
        }
        proof {
            lemma_first_match(keys, family@);
            if let Some(k) = first_match(keys, family@) {
                assert(keys[k] == family@);
            }
        }
        None
    }

    /// The size of a loaded image, `None` where no image was loaded from `path`.
    pub fn find_image(&self, path: &String) -> (r: Option<&ImageInfo>)
        ensures
            match r {
                Some(f) => self.image(path@) == Some(*f),
                None => self.image(path@) is None,
            },
    {
        let ghost keys = self.image_paths();
        let mut i: usize = 0;
        while i < self.images.len()
            invariant
                i <= self.images.len(),
                keys == self.image_paths(),
                forall|j: int| 0 <= j < i ==> keys[j] != path@,
            decreases self.images.len() - i,
        {
            if self.images[i].path == *path {
                proof {
                    assert(is_first_match(keys, path@, i as int));
                    lemma_first_match(keys, path@);
                }
                return Some(&self.images[i]);
            }
            i += 1;
        }
        proof {
            lemma_first_match(keys, path@);
            if let Some(k) = first_match(keys, path@) {
                assert(keys[k] == path@);
            }
        }
        None
    }
}

} // verus!
