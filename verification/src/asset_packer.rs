//! The build-step driver: packs each asset group once, keeps the handle
//! lists that the code generator consumes, and enforces the call order.
//!
//! File reading and writing stay with the caller; the packer works on
//! decoded images and file-stem names and hands back the artifacts to
//! write.

use vstd::prelude::*;
use crate::atlas::{form_atlas, atlas_ok_spec, atlas_err_spec, AtlasArtifacts};
use crate::image::Image;
use crate::names::{lemma_sort_names_sorted, sort_names, sort_names_vec, sorted_names};
use crate::BuildError;

verus! {

/// Most sprite variants an id enum can carry (a 16-bit id space).
pub const MAX_ASSET_IDS: usize = 65536;

/// Packs image atlases and other assets for a game build step.
///
/// Each asset group may be packed once; the packer records the handle
/// names, indexed by id, in the order the generated enum code lists them.
pub struct AssetPacker {
    check_rerun: bool,
    sprites: Option<Vec<String>>,
    music: Option<Vec<String>>,
    sounds: Option<Vec<String>>,
    js: bool,
}

/// The handle lists a finished packing run hands to the code generator:
/// sprite, music and sound names, each indexed by id.
pub struct AssetIdCode {
    pub sprite_ids: Vec<String>,
    pub music_ids: Vec<String>,
    pub sound_ids: Vec<String>,
}

impl AssetPacker {
    pub closed spec fn spec_check_rerun(&self) -> bool {
        self.check_rerun
    }

    pub closed spec fn spec_js(&self) -> bool {
        self.js
    }

    pub closed spec fn spec_sprites(&self) -> Option<Seq<String>> {
        match self.sprites {
            Option::Some(ref v) => Some(v@),
            Option::None => None,
        }
    }

    pub closed spec fn spec_music(&self) -> Option<Seq<String>> {
        match self.music {
            Option::Some(ref v) => Some(v@),
            Option::None => None,
        }
    }

    pub closed spec fn spec_sounds(&self) -> Option<Seq<String>> {
        match self.sounds {
            Option::Some(ref v) => Some(v@),
            Option::None => None,
        }
    }

    /// A fresh packer: nothing packed, no rerun checks, no script yet.
    pub fn new() -> (r: AssetPacker)
        ensures
            !r.spec_check_rerun(),
            !r.spec_js(),
            r.spec_sprites() is None,
            r.spec_music() is None,
            r.spec_sounds() is None,
    {
        AssetPacker {
            check_rerun: false,
            sprites: None,
            music: None,
            sounds: None,
            js: false,
        }
    }

    /// Turns on "rerun-if-changed" reporting for every file the caller
    /// reads or writes on the packer's behalf. Must precede packing.
    pub fn cargo_rerun_if_changed(&mut self)
        requires
            old(self).spec_sprites() is None,
        ensures
            final(self).spec_check_rerun(),
            final(self).spec_js() == old(self).spec_js(),
            final(self).spec_sprites() == old(self).spec_sprites(),
            final(self).spec_music() == old(self).spec_music(),
            final(self).spec_sounds() == old(self).spec_sounds(),
    {
        self.check_rerun = true;
    }

    /// Whether the caller should report touched files to cargo.
    pub fn check_rerun(&self) -> (r: bool)
        ensures
            r == self.spec_check_rerun(),
    {
        self.check_rerun
    }

    /// Packs sprite images (file stem and decoded RGBA pixels each) into
    /// one atlas with a one-pixel pad around every sprite, and records
    /// the region names as the sprite handles, in id order. May be
    /// invoked only once.
    pub fn sprites(&mut self, images: Vec<(String, Image)>) -> (r: Result<
        AtlasArtifacts,
        BuildError,
    >)
        requires
            old(self).spec_sprites() is None,
            forall|i: int| 0 <= i < images@.len() ==> (#[trigger] images@[i]).1.wf(),
        ensures
            final(self).spec_check_rerun() == old(self).spec_check_rerun(),
            final(self).spec_js() == old(self).spec_js(),
            final(self).spec_music() == old(self).spec_music(),
            final(self).spec_sounds() == old(self).spec_sounds(),
            match r {
                Result::Ok(out) => {
                    &&& atlas_ok_spec(images@, 1, out)
                    &&& final(self).spec_sprites() matches Some(ns) && ns.len()
                        == out.names@.len() && (forall|t: int|
                        0 <= t < ns.len() ==> (#[trigger] ns[t])@ == out.names@[t]@)
                },
                Result::Err(e) => {
                    &&& atlas_err_spec(images@, 1, e)
                    &&& final(self).spec_sprites() == old(self).spec_sprites()
                },
            },
    {
        let out = match form_atlas(images, 1) {
            Err(e) => {
                return Err(e);
            },
            Ok(o) => o,
        };
        let mut recorded: Vec<String> = Vec::new();
        let mut i: usize = 0;
        while i < out.names.len()
            invariant
                i <= out.names@.len(),
                recorded@.len() == i,
                forall|t: int| 0 <= t < i ==> #[trigger] recorded@[t]@ == out.names@[t]@,
            decreases out.names@.len() - i,
        {
            recorded.push(String::from_str(out.names[i].as_str()));
            i = i + 1;
        }
        proof {
            assert forall|t: int|
                0 <= t < recorded@.len() implies #[trigger] recorded@[t]@
                == out.names@[t]@ by {}
        }
        self.sprites = Some(recorded);
        proof {
            assert(self.spec_sprites() matches Some(ns) && ns.len() == out.names@.len());
        }
        Ok(out)
    }

    /// Records music tracks by their file-stem names, sorted so ids are
    /// deterministic; the caller copies `music<id>.ogg` files itself.
    /// May be invoked only once.
    pub fn music(&mut self, names: Vec<String>) -> (r: Result<(), BuildError>)
        requires
            old(self).spec_music() is None,
        ensures
            final(self).spec_check_rerun() == old(self).spec_check_rerun(),
            final(self).spec_js() == old(self).spec_js(),
            final(self).spec_sprites() == old(self).spec_sprites(),
            final(self).spec_sounds() == old(self).spec_sounds(),
            match r {
                Result::Ok(()) => final(self).spec_music() == Some(sort_names(names@))
                    && sorted_names(sort_names(names@)),
                Result::Err(e) => {
                    &&& e == BuildError::NonAsciiName
                    &&& exists|i: int|
                        0 <= i < names@.len() && !(#[trigger] names@[i]).is_ascii()
                    &&& final(self).spec_music() == old(self).spec_music()
                },
            },
    {
        let mut ns = names;
        let n = ns.len();
        let mut i: usize = 0;
        while i < n
            invariant
                i <= n,
                ns@ == names@,
                n == ns@.len(),
                forall|u: int| 0 <= u < i ==> (#[trigger] ns@[u]).is_ascii(),
            decreases n - i,
        {
            if !ns[i].is_ascii() {
                return Err(BuildError::NonAsciiName);
            }
            i = i + 1;
        }
        sort_names_vec(&mut ns);
        proof {
            lemma_sort_names_sorted(names@);
        }
        self.music = Some(ns);
        Ok(())
    }

    /// Records sound effects by their file-stem names, sorted so ids are
    /// deterministic; the caller copies `sound<id>.ogg` files itself.
    /// May be invoked only once.
    pub fn sounds(&mut self, names: Vec<String>) -> (r: Result<(), BuildError>)
        requires
            old(self).spec_sounds() is None,
        ensures
            final(self).spec_check_rerun() == old(self).spec_check_rerun(),
            final(self).spec_js() == old(self).spec_js(),
            final(self).spec_sprites() == old(self).spec_sprites(),
            final(self).spec_music() == old(self).spec_music(),
            match r {
                Result::Ok(()) => final(self).spec_sounds() == Some(sort_names(names@))
                    && sorted_names(sort_names(names@)),
                Result::Err(e) => {
                    &&& e == BuildError::NonAsciiName
                    &&& exists|i: int|
                        0 <= i < names@.len() && !(#[trigger] names@[i]).is_ascii()
                    &&& final(self).spec_sounds() == old(self).spec_sounds()
                },
            },
    {
        let mut ns = names;
        let n = ns.len();
        let mut i: usize = 0;
        while i < n
            invariant
                i <= n,
                ns@ == names@,
                n == ns@.len(),
                forall|u: int| 0 <= u < i ==> (#[trigger] ns@[u]).is_ascii(),
            decreases n - i,
        {
            if !ns[i].is_ascii() {
                return Err(BuildError::NonAsciiName);
            }
            i = i + 1;
        }
        sort_names_vec(&mut ns);
        proof {
            lemma_sort_names_sorted(names@);
        }
        self.sounds = Some(ns);
        Ok(())
    }

    /// Marks the runtime script as generated; the caller writes the
    /// actual script file. May be invoked only once.
    pub fn gen_javascript(&mut self)
        requires
            !old(self).spec_js(),
        ensures
            final(self).spec_js(),
            final(self).spec_check_rerun() == old(self).spec_check_rerun(),
            final(self).spec_sprites() == old(self).spec_sprites(),
            final(self).spec_music() == old(self).spec_music(),
            final(self).spec_sounds() == old(self).spec_sounds(),
    {
        self.js = true;
    }

    /// Marks the runtime script and page as generated; the caller writes
    /// both files. May be invoked only once.
    pub fn gen_javascript_and_html(&mut self)
        requires
            !old(self).spec_js(),
        ensures
            final(self).spec_js(),
            final(self).spec_check_rerun() == old(self).spec_check_rerun(),
            final(self).spec_sprites() == old(self).spec_sprites(),
            final(self).spec_music() == old(self).spec_music(),
            final(self).spec_sounds() == old(self).spec_sounds(),
    {
        self.gen_javascript();
    }

    /// Hands the recorded handle lists to the code generator: sprites
    /// must have been packed; music and sounds default to empty lists.
    /// Fails when a list is too long for a 16-bit id space.
    pub fn gen_asset_id_code(self) -> (r: Result<AssetIdCode, BuildError>)
        requires
            self.spec_sprites() is Some,
        ensures
            match r {
                Result::Ok(code) => {
                    &&& Some(code.sprite_ids@) == self.spec_sprites()
                    &&& code.sprite_ids@.len() <= MAX_ASSET_IDS
                    &&& code.music_ids@.len() <= MAX_ASSET_IDS
                    &&& code.sound_ids@.len() <= MAX_ASSET_IDS
                    &&& match self.spec_music() {
                        Some(m) => code.music_ids@ == m,
                        None => code.music_ids@.len() == 0,
                    }
                    &&& match self.spec_sounds() {
                        Some(sn) => code.sound_ids@ == sn,
                        None => code.sound_ids@.len() == 0,
                    }
                },
                Result::Err(e) => {
                    &&& e == BuildError::TooManyRegions
                    &&& {
                        ||| self.spec_sprites()->Some_0.len() > MAX_ASSET_IDS
                        ||| (self.spec_music() matches Some(m) && m.len() > MAX_ASSET_IDS)
                        ||| (self.spec_sounds() matches Some(sn) && sn.len() > MAX_ASSET_IDS)
                    }
                },
            },
    {
        let ghost sp0 = self.spec_sprites();
        let ghost mu0 = self.spec_music();
        let ghost so0 = self.spec_sounds();
        let sprite_ids = match self.sprites {
            Some(v) => v,
            None => {
                proof {
                    assert(false);
                }
                Vec::new()
            },
        };
        let music_ids = match self.music {
            Some(v) => v,
            None => Vec::new(),
        };
        let sound_ids = match self.sounds {
            Some(v) => v,
            None => Vec::new(),
        };
        proof {
            assert(sp0 == Some(sprite_ids@));
            assert(mu0 is Some ==> mu0 == Some(music_ids@));
            assert(mu0 is None ==> music_ids@.len() == 0);
            assert(so0 is Some ==> so0 == Some(sound_ids@));
            assert(so0 is None ==> sound_ids@.len() == 0);
        }
        if sprite_ids.len() > MAX_ASSET_IDS || music_ids.len() > MAX_ASSET_IDS
            || sound_ids.len() > MAX_ASSET_IDS {
            return Err(BuildError::TooManyRegions);
        }
        Ok(AssetIdCode { sprite_ids, music_ids, sound_ids })
    }
}

} // verus!
