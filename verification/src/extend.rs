use vstd::prelude::*;

verus! {

/// The file-format families the tools work with.
#[derive(Clone, Copy, Debug, PartialEq, Eq, Structural)]
pub enum FormatType {
    Nintendo,
}

/// What a resource holds, independent of its on-disk format.
#[derive(Clone, Copy, Debug, PartialEq, Eq, Structural)]
pub enum FileType {
    Palette,
    Tileset,
    Tilemap,
    Frames,
    Animation,
}

impl FormatType {
    /// The file-dialog glob patterns of this format family, with a
    /// human-readable description.
    pub fn filters(&self) -> (r: Option<(Vec<String>, String)>)
        ensures
            r is Some,
            r->Some_0.0@.len() == 8,
    {
        match self {
            FormatType::Nintendo => {
                let mut pats: Vec<String> = Vec::new();
                pats.push("*.nclr".to_owned());
                pats.push("*.ncgr".to_owned());
                pats.push("*.ncbr".to_owned());
                pats.push("*.nscr".to_owned());
                pats.push("*.NCLR".to_owned());
                pats.push("*.NCGR".to_owned());
                pats.push("*.NCBR".to_owned());
                pats.push("*.NSCR".to_owned());
                Some((pats, "Nintendo DS image files".to_owned()))
            },
        }
    }
}

} // verus!
