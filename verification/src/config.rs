//! Three-tier configuration: per-extension formatting rules, partial-config
//! layering with rightmost-wins merge semantics, and the explosion of
//! comma-separated extension-list keys into a per-extension rule table.

use crate::bytes::{bytes_eq, copy_bytes, seqs_view, split_bytes, split_spec};
use vstd::prelude::*;

verus! {

/// Comment-wrapping markers and flags governing how a header is rendered and
/// matched for one file extension.
#[derive(Debug)]
pub struct FileTypeConfig {
    pub before_block: Vec<u8>,
    pub after_block: Vec<u8>,
    pub before_line: Vec<u8>,
    pub after_line: Vec<u8>,
    pub enable: bool,
    pub skip_shebang_line: bool,
}

/// Mathematical value of a `FileTypeConfig`.
#[verifier::ext_equal]
pub struct FileTypeConfigV {
    pub before_block: Seq<u8>,
    pub after_block: Seq<u8>,
    pub before_line: Seq<u8>,
    pub after_line: Seq<u8>,
    pub enable: bool,
    pub skip_shebang_line: bool,
}

impl View for FileTypeConfig {
    type V = FileTypeConfigV;

    open spec fn view(&self) -> FileTypeConfigV {
        FileTypeConfigV {
            before_block: self.before_block@,
            after_block: self.after_block@,
            before_line: self.before_line@,
            after_line: self.after_line@,
            enable: self.enable,
            skip_shebang_line: self.skip_shebang_line,
        }
    }
}

impl Clone for FileTypeConfig {
    fn clone(&self) -> (r: Self)
        ensures
            r@ == self@,
    {
        FileTypeConfig {
            before_block: copy_bytes(&self.before_block),
            after_block: copy_bytes(&self.after_block),
            before_line: copy_bytes(&self.before_line),
            after_line: copy_bytes(&self.after_line),
            enable: self.enable,
            skip_shebang_line: self.skip_shebang_line,
        }
    }
}

impl Default for FileTypeConfig {
    /// Empty markers, rule enabled, shebang skipping on: the value every field
    /// of a rule takes when the configuration file leaves it out.
    fn default() -> (r: Self)
        ensures
            r@.before_block == Seq::<u8>::empty(),
            r@.after_block == Seq::<u8>::empty(),
            r@.before_line == Seq::<u8>::empty(),
            r@.after_line == Seq::<u8>::empty(),
            r@.enable == true,
            r@.skip_shebang_line == true,
    {
        FileTypeConfig {
            before_block: Vec::new(),
            after_block: Vec::new(),
            before_line: Vec::new(),
            after_line: Vec::new(),
            enable: true,
            skip_shebang_line: true,
        }
    }
}

/// The views of an extension-table's entries: each a (key, rule) pair, the
/// key possibly a comma-separated list of extensions.
pub open spec fn entries_view(s: Seq<(Vec<u8>, FileTypeConfig)>) -> Seq<(Seq<u8>, FileTypeConfigV)> {
    Seq::new(s.len(), |i: int| (s[i].0@, s[i].1@))
}

/// The key-to-rule map an entry sequence denotes: a later entry with the same
/// key overrides an earlier one.
pub open spec fn table_map(s: Seq<(Seq<u8>, FileTypeConfigV)>) -> Map<Seq<u8>, FileTypeConfigV>
    decreases s.len(),
{
    if s.len() == 0 {
        Map::empty()
    } else {
        table_map(s.drop_last()).insert(s.last().0, s.last().1)
    }
}

/// One entry per piece of `pieces`, all carrying the rule `v`.
pub open spec fn pieces_entries(pieces: Seq<Seq<u8>>, v: FileTypeConfigV) -> Seq<
    (Seq<u8>, FileTypeConfigV),
> {
    Seq::new(pieces.len(), |i: int| (pieces[i], v))
}

/// Each entry's comma-separated key exploded into one entry per extension,
/// preserving order, so that a later layer's single-extension entry can
/// override one extension of an earlier comma-list without restating it.
pub open spec fn explode_entries(entries: Seq<(Seq<u8>, FileTypeConfigV)>) -> Seq<
    (Seq<u8>, FileTypeConfigV),
>
    decreases entries.len(),
{
    if entries.len() == 0 {
        Seq::empty()
    } else {
        explode_entries(entries.drop_last()) + pieces_entries(
            split_spec(entries.last().0, 44),
            entries.last().1,
        )
    }
}

/// Effective configuration after layering: the `use_gitignore` switch and the
/// extension table, keys still in comma-list form.
#[derive(Debug)]
pub struct Config {
    pub use_gitignore: bool,
    pub file_types: Vec<(Vec<u8>, FileTypeConfig)>,
}

/// Mathematical value of a `Config`.
#[verifier::ext_equal]
pub struct ConfigV {
    pub use_gitignore: bool,
    pub file_types: Seq<(Seq<u8>, FileTypeConfigV)>,
}

impl View for Config {
    type V = ConfigV;

    open spec fn view(&self) -> ConfigV {
        ConfigV { use_gitignore: self.use_gitignore, file_types: entries_view(self.file_types@) }
    }
}

/// A single layer of configuration: every field optional, so the layer acts
/// as a patch over the layers beneath it.
#[derive(Debug)]
pub struct PartialConfig {
    pub use_gitignore: Option<bool>,
    pub file_types: Option<Vec<(Vec<u8>, FileTypeConfig)>>,
}

/// Mathematical value of a `PartialConfig`.
#[verifier::ext_equal]
pub struct PartialConfigV {
    pub use_gitignore: Option<bool>,
    pub file_types: Option<Seq<(Seq<u8>, FileTypeConfigV)>>,
}

impl View for PartialConfig {
    type V = PartialConfigV;

    open spec fn view(&self) -> PartialConfigV {
        PartialConfigV {
            use_gitignore: self.use_gitignore,
            file_types: match self.file_types {
                Some(v) => Some(entries_view(v@)),
                None => None,
            },
        }
    }
}

/// The entries a layer contributes: none when the layer leaves the field out.
pub open spec fn opt_entries(o: Option<Seq<(Seq<u8>, FileTypeConfigV)>>) -> Seq<
    (Seq<u8>, FileTypeConfigV),
> {
    match o {
        Some(s) => s,
        None => Seq::empty(),
    }
}

pub broadcast proof fn lemma_entries_view_len(s: Seq<(Vec<u8>, FileTypeConfig)>)
    ensures
        #[trigger] entries_view(s).len() == s.len(),
{
}

pub broadcast proof fn lemma_entries_view_push(s: Seq<(Vec<u8>, FileTypeConfig)>, p: (Vec<u8>, FileTypeConfig))
    ensures
        #[trigger] entries_view(s.push(p)) =~= entries_view(s).push((p.0@, p.1@)),
{
    lemma_entries_view_len(s);
    lemma_entries_view_len(s.push(p));
}

fn copy_entries(v: &Vec<(Vec<u8>, FileTypeConfig)>) -> (r: Vec<(Vec<u8>, FileTypeConfig)>)
    ensures
        entries_view(r@) == entries_view(v@),
{
    broadcast use lemma_entries_view_len, lemma_entries_view_push;

    let mut r: Vec<(Vec<u8>, FileTypeConfig)> = Vec::new();
    let mut i: usize = 0;
    while i < v.len()
        invariant
            i <= v.len(),
            entries_view(r@) =~= entries_view(v@).take(i as int),
        decreases v.len() - i,
    {
        let e = &v[i];
        r.push((copy_bytes(&e.0), e.1.clone()));
        proof {
            assert(entries_view(v@).take(i + 1) =~= entries_view(v@).take(i as int).push(
                entries_view(v@)[i as int],
            ));
        }
        i = i + 1;
    }
    proof {
        assert(entries_view(r@) =~= entries_view(v@));
    }
    r
}

fn append_entries(dst: &mut Vec<(Vec<u8>, FileTypeConfig)>, src: &Vec<(Vec<u8>, FileTypeConfig)>)
    ensures
        entries_view(final(dst)@) == entries_view(old(dst)@) + entries_view(src@),
{
    broadcast use lemma_entries_view_len, lemma_entries_view_push;

    let mut i: usize = 0;
    while i < src.len()
        invariant
            i <= src.len(),
            entries_view(dst@) =~= entries_view(old(dst)@) + entries_view(src@).take(i as int),
        decreases src.len() - i,
    {
        let e = &src[i];
        dst.push((copy_bytes(&e.0), e.1.clone()));
        proof {
            assert(entries_view(src@).take(i + 1) =~= entries_view(src@).take(i as int).push(
                entries_view(src@)[i as int],
            ));
            assert((entries_view(old(dst)@) + entries_view(src@).take(i as int)).push(
                entries_view(src@)[i as int],
            ) =~= entries_view(old(dst)@) + entries_view(src@).take(i as int).push(
                entries_view(src@)[i as int],
            ));
            assert(entries_view(dst@) =~= entries_view(old(dst)@) + entries_view(src@).take(
                i + 1,
            ));
        }
        i = i + 1;
    }
    proof {
        assert(entries_view(dst@) =~= entries_view(old(dst)@) + entries_view(src@));
    }
}

impl Config {
    /// The per-extension rule table: every comma-separated key exploded into
    /// one entry per extension, in entry order, so a later entry wins for any
    /// extension both mention.
    pub fn get_filetype_map(&self) -> (r: Vec<(Vec<u8>, FileTypeConfig)>)
        ensures
            entries_view(r@) == explode_entries(self@.file_types),
    {
        broadcast use lemma_entries_view_len, lemma_entries_view_push;

        let mut out: Vec<(Vec<u8>, FileTypeConfig)> = Vec::new();
        let mut i: usize = 0;
        let ghost ev = self@.file_types;
        while i < self.file_types.len()
            invariant
                i <= self.file_types.len(),
                ev == entries_view(self.file_types@),
                entries_view(out@) =~= explode_entries(ev.take(i as int)),
            decreases self.file_types.len() - i,
        {
            let e = &self.file_types[i];
            let pieces = split_bytes(&e.0, 44);
            let ghost ps = split_spec(e.0@, 44);
            let mut j: usize = 0;
            while j < pieces.len()
                invariant
                    j <= pieces.len(),
                    i < self.file_types.len(),
                    ev == entries_view(self.file_types@),
                    ps == split_spec(self.file_types@[i as int].0@, 44),
                    seqs_view(pieces@) == ps,
                    e == &self.file_types[i as int],
                    entries_view(out@) =~= explode_entries(ev.take(i as int)) + pieces_entries(
                        ps,
                        ev[i as int].1,
                    ).take(j as int),
                decreases pieces.len() - j,
            {
                proof {
                    assert(seqs_view(pieces@)[j as int] == pieces@[j as int]@);
                }
                out.push((copy_bytes(&pieces[j]), e.1.clone()));
                proof {
                    assert(pieces_entries(ps, ev[i as int].1).take(j + 1) =~= pieces_entries(
                        ps,
                        ev[i as int].1,
                    ).take(j as int).push((ps[j as int], ev[i as int].1)));
                    assert((explode_entries(ev.take(i as int)) + pieces_entries(
                        ps,
                        ev[i as int].1,
                    ).take(j as int)).push((ps[j as int], ev[i as int].1)) =~= explode_entries(
                        ev.take(i as int),
                    ) + pieces_entries(ps, ev[i as int].1).take(j as int).push((
                        ps[j as int],
                        ev[i as int].1,
                    )));
                    assert(entries_view(out@) =~= explode_entries(ev.take(i as int))
                        + pieces_entries(ps, ev[i as int].1).take(j + 1));
                }
                j = j + 1;
            }
            proof {
                assert(pieces_entries(ps, ev[i as int].1).take(pieces@.len() as int)
                    =~= pieces_entries(ps, ev[i as int].1));
                assert(ev.take(i + 1).drop_last() =~= ev.take(i as int));
                assert(explode_entries(ev.take(i + 1)) == explode_entries(ev.take(i as int))
                    + pieces_entries(ps, ev[i as int].1));
            }
            i = i + 1;
        }
        proof {
            assert(ev.take(ev.len() as int) =~= ev);
        }
        out
    }

    /// Overlays one layer on an effective configuration: a field the layer
    /// defines replaces the accumulator's value; the layer's extension-table
    /// entries are appended, so they win for any key both define.
    pub fn assign_partial(target: &Self, source: &PartialConfig) -> (r: Self)
        ensures
            r@.use_gitignore == match source@.use_gitignore {
                Some(b) => b,
                None => target@.use_gitignore,
            },
            r@.file_types == target@.file_types + opt_entries(source@.file_types),
    {
        let use_gitignore = match source.use_gitignore {
            Some(b) => b,
            None => target.use_gitignore,
        };
        let mut file_types = copy_entries(&target.file_types);
        match &source.file_types {
            Some(src_entries) => {
                append_entries(&mut file_types, src_entries);
            },
            None => {
                proof {
                    assert(entries_view(file_types@) =~= target@.file_types + opt_entries(
                        source@.file_types,
                    ));
                }
            },
        }
        Config { use_gitignore, file_types }
    }
}

impl Default for Config {
    /// The built-in starting point of the merge: respect ignore files, no
    /// extension rules yet.
    fn default() -> (r: Self)
        ensures
            r@.use_gitignore == true,
            r@.file_types == Seq::<(Seq<u8>, FileTypeConfigV)>::empty(),
    {
        let r = Config { use_gitignore: true, file_types: Vec::new() };
        proof {
            assert(r@.file_types =~= Seq::<(Seq<u8>, FileTypeConfigV)>::empty());
        }
        r
    }
}

impl PartialConfig {
    /// Merges one partial layer over another: a field the source defines
    /// replaces the target's; extension-table entries of both are kept, the
    /// source's after the target's so that the source wins per key.
    pub fn assign(target: &Self, source: &Self) -> (r: Self)
        ensures
            r@.use_gitignore == match source@.use_gitignore {
                Some(b) => Some(b),
                None => target@.use_gitignore,
            },
            r@.file_types == match (target@.file_types, source@.file_types) {
                (Some(t), Some(s)) => Some(t + s),
                (Some(t), None) => Some(t),
                (None, Some(s)) => Some(s),
                (None, None) => None::<Seq<(Seq<u8>, FileTypeConfigV)>>,
            },
    {
        let use_gitignore = match source.use_gitignore {
            Some(b) => Some(b),
            None => target.use_gitignore,
        };
        let file_types = match (&target.file_types, &source.file_types) {
            (Some(t), Some(s)) => {
                let mut merged = copy_entries(t);
                append_entries(&mut merged, s);
                Some(merged)
            },
            (Some(t), None) => Some(copy_entries(t)),
            (None, Some(s)) => Some(copy_entries(s)),
            (None, None) => None,
        };
        PartialConfig { use_gitignore, file_types }
    }
}

/// Resolves the effective configuration from the three layers: the built-in
/// base, the user-scope layer, and the directory-scope layer when present.
/// Later layers override earlier ones field by field, and their extension
/// entries are appended in layer order so the rightmost definition of a key
/// wins.
pub fn load_config(base: &PartialConfig, user: &PartialConfig, directory: &Option<PartialConfig>) -> (r:
    Config)
    ensures
        r@.use_gitignore == {
            let dir_gi = match *directory {
                Some(d) => d@.use_gitignore,
                None => None::<bool>,
            };
            match dir_gi {
                Some(b) => b,
                None => match user@.use_gitignore {
                    Some(b) => b,
                    None => match base@.use_gitignore {
                        Some(b) => b,
                        None => true,
                    },
                },
            }
        },
        r@.file_types == opt_entries(base@.file_types) + opt_entries(user@.file_types) + (match *directory {
            Some(d) => opt_entries(d@.file_types),
            None => Seq::<(Seq<u8>, FileTypeConfigV)>::empty(),
        }),
{
    let with_base = Config::assign_partial(&Config::default(), base);
    let with_user = Config::assign_partial(&with_base, user);
    let r = match directory {
        Some(d) => Config::assign_partial(&with_user, d),
        None => with_user,
    };
    proof {
        assert(r@.file_types =~= opt_entries(base@.file_types) + opt_entries(user@.file_types) + (
        match *directory {
            Some(d) => opt_entries(d@.file_types),
            None => Seq::<(Seq<u8>, FileTypeConfigV)>::empty(),
        }));
    }
    r
}

/// Looks an extension up in an exploded rule table, honouring the
/// later-entry-wins reading that `table_map` gives the entries.
pub fn table_get<'a>(table: &'a Vec<(Vec<u8>, FileTypeConfig)>, key: &Vec<u8>) -> (r: Option<
    &'a FileTypeConfig,
>)
    ensures
        match r {
            Some(c) => table_map(entries_view(table@)).contains_key(key@) && c@ == table_map(
                entries_view(table@),
            )[key@],
            None => !table_map(entries_view(table@)).contains_key(key@),
        },
{
    let ghost ev = entries_view(table@);
    let mut k: usize = table.len();
    proof {
        assert(ev.take(ev.len() as int) =~= ev);
    }
    while k > 0
        invariant
            k <= table.len(),
            ev == entries_view(table@),
            table_map(ev).contains_key(key@) == table_map(ev.take(k as int)).contains_key(key@),
            table_map(ev).contains_key(key@) ==> table_map(ev)[key@] == table_map(
                ev.take(k as int),
            )[key@],
        decreases k,
    {
        let e = &table[k - 1];
        proof {
            assert(ev.take(k as int).drop_last() =~= ev.take(k - 1));
            assert(ev.take(k as int).last() == ev[k - 1]);
        }
        if bytes_eq(&e.0, key) {
            return Some(&e.1);
        }
        k = k - 1;
    }
    proof {
        assert(ev.take(0) =~= Seq::<(Seq<u8>, FileTypeConfigV)>::empty());
    }
    None
}

pub proof fn lemma_table_map_concat(
    a: Seq<(Seq<u8>, FileTypeConfigV)>,
    b: Seq<(Seq<u8>, FileTypeConfigV)>,
    k: Seq<u8>,
)
    ensures
        table_map(a + b).contains_key(k) == (table_map(a).contains_key(k) || table_map(
            b,
        ).contains_key(k)),
        table_map(b).contains_key(k) ==> table_map(a + b)[k] == table_map(b)[k],
        !table_map(b).contains_key(k) && table_map(a).contains_key(k) ==> table_map(a + b)[k]
            == table_map(a)[k],
    decreases b.len(),
{
    if b.len() == 0 {
        assert(a + b =~= a);
    } else {
        assert((a + b).drop_last() =~= a + b.drop_last());
        assert((a + b).last() == b.last());
        lemma_table_map_concat(a, b.drop_last(), k);
    }
}

pub proof fn lemma_explode_concat(
    a: Seq<(Seq<u8>, FileTypeConfigV)>,
    b: Seq<(Seq<u8>, FileTypeConfigV)>,
)
    ensures
        explode_entries(a + b) == explode_entries(a) + explode_entries(b),
    decreases b.len(),
{
    if b.len() == 0 {
        assert(a + b =~= a);
        assert(explode_entries(a) + explode_entries(b) =~= explode_entries(a));
    } else {
        assert((a + b).drop_last() =~= a + b.drop_last());
        assert((a + b).last() == b.last());
        lemma_explode_concat(a, b.drop_last());
        assert(explode_entries(a + b) =~= explode_entries(a) + explode_entries(b));
    }
}

/// Config layering: when a later layer's entries are appended after an
/// earlier layer's, the exploded per-extension table gives every extension
/// the later layer defines its later rule, while every extension only the
/// earlier layer defines keeps the earlier rule untouched.
pub proof fn lemma_layered_override(
    lower: Seq<(Seq<u8>, FileTypeConfigV)>,
    upper: Seq<(Seq<u8>, FileTypeConfigV)>,
    ext: Seq<u8>,
)
    ensures
        table_map(explode_entries(lower + upper)).contains_key(ext) == (table_map(
            explode_entries(lower),
        ).contains_key(ext) || table_map(explode_entries(upper)).contains_key(ext)),
        table_map(explode_entries(upper)).contains_key(ext) ==> table_map(
            explode_entries(lower + upper),
        )[ext] == table_map(explode_entries(upper))[ext],
        !table_map(explode_entries(upper)).contains_key(ext) && table_map(
            explode_entries(lower),
        ).contains_key(ext) ==> table_map(explode_entries(lower + upper))[ext] == table_map(
            explode_entries(lower),
        )[ext],
{
    lemma_explode_concat(lower, upper);
    lemma_table_map_concat(explode_entries(lower), explode_entries(upper), ext);
}

/// Config layering across the three layers exactly as `load_config` stacks
/// them: for any extension, the directory layer's rule wins when that layer
/// defines the extension, else the user layer's, else the base layer's —
/// overriding one extension in a later layer leaves every other extension's
/// earlier rule untouched.
pub proof fn lemma_three_layer_override(
    base: Seq<(Seq<u8>, FileTypeConfigV)>,
    user: Seq<(Seq<u8>, FileTypeConfigV)>,
    directory: Seq<(Seq<u8>, FileTypeConfigV)>,
    ext: Seq<u8>,
)
    ensures
        ({
            let effective = table_map(explode_entries(base + user + directory));
            let in_base = table_map(explode_entries(base)).contains_key(ext);
            let in_user = table_map(explode_entries(user)).contains_key(ext);
            let in_dir = table_map(explode_entries(directory)).contains_key(ext);
            &&& effective.contains_key(ext) == (in_base || in_user || in_dir)
            &&& in_dir ==> effective[ext] == table_map(explode_entries(directory))[ext]
            &&& !in_dir && in_user ==> effective[ext] == table_map(explode_entries(user))[ext]
            &&& !in_dir && !in_user && in_base ==> effective[ext] == table_map(
                explode_entries(base),
            )[ext]
        }),
{
    lemma_layered_override(base, user, ext);
    lemma_layered_override(base + user, directory, ext);
}

/// The user-scope configuration directory could not be resolved.
#[derive(Debug)]
pub struct NoConfigDirErr;

} // verus!
