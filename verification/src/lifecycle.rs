//! Lifecycle: a fresh registry, and one that takes over stored data.

use vstd::prelude::*;

use crate::certify;
use crate::certify::{leaves_of, Tree};
use crate::directory;
use crate::directory::index_of;
use crate::harberger;
use crate::harberger::{
    config_bytes, config_in, default_config, migratable, v2_in, ConfigState,
};
use crate::maps::{
    amount_bytes, by_text, decodes, lookup, read_all, readable, values_in_order, views, Mark,
    TextMap,
};
use crate::order::{lists_texts, texts_in_order};
use crate::record::{canonical_bytes, Record, RecordState};
use crate::registry::{sound, Registry, RegistryState};
use crate::running;
use crate::settings::{configs_readable, schema_at, settings_of, Meta, SettingsState, Slot};
use crate::stable::{contents, memory_of, open_maps};
use crate::store::{
    maps_readable, state_of, StableMaps, Store, StoreState, MEM_AUCTIONS, MEM_CREDITS,
    MEM_DEPLOYERS, MEM_HANDLES, MEM_META, MEM_RECORDS, MEM_TAGS, SCHEMA,
};
use crate::text::{decimal, decimal_text, join3, texts};

verus! {

/// What is said of stored data that does not decode.
pub open spec fn unreadable() -> Seq<char> {
    "stored data does not decode"@
}

/// A registry that has just been opened: nothing in flight, and the tree
/// built anew, since it is heap state.
pub open spec fn opened(s: StoreState) -> RegistryState {
    RegistryState { store: s, leaves: leaves_of(s.records), in_flight: 0 }
}

/// What a fresh registry holds.
pub open spec fn initial(maps: StableMaps, m: Map<Slot, Seq<u8>>) -> RegistryState {
    let s = state_of(maps, m);
    opened(StoreState { settings: SettingsState { schema: SCHEMA, ..s.settings }, ..s })
}

/// The records in stable memory by their names.
pub open spec fn records_in(maps: StableMaps) -> Map<Seq<char>, RecordState> {
    by_text::<Record>(contents(maps.records))
}

/// Whether every record in stable memory can be read.
pub open spec fn records_decode(maps: StableMaps) -> bool {
    decodes::<Record>(contents(maps.records))
}

/// The slots with the schema version of this code.
pub open spec fn noted(m: Map<Slot, Seq<u8>>) -> Map<Slot, Seq<u8>> {
    m.insert(Slot::Schema, amount_bytes(SCHEMA as u128))
}

/// The config after an upgrade: a schema 2 one in its current shape.
pub open spec fn upgraded_config(m: Map<Slot, Seq<u8>>) -> ConfigState {
    match lookup(m, Slot::Harberger) {
        None => default_config(),
        Some(b) => match config_in(b) {
            Some(c) => c,
            None => v2_in(b)->0,
        },
    }
}

/// Whether the stored auction settings, if there are any, can be read.
pub open spec fn auction_readable(m: Map<Slot, Seq<u8>>) -> bool {
    lookup(m, Slot::Auction) matches Some(b) ==> running::config_in(b) is Some
}

/// Why stored data cannot be taken over. Only what an upgrade reads counts:
/// the schema version, the records, and the tag index or the config where
/// it has to write them anew.
pub open spec fn upgrade_fault(maps: StableMaps, m: Map<Slot, Seq<u8>>) -> Option<Seq<char>> {
    let from = schema_at(m);
    if from > SCHEMA {
        Some(
            "stable memory schema "@ + decimal(from as nat) + " is newer than this code's 3"@,
        )
    } else if !records_decode(maps) || (from < 2 && !readable::<Mark>(contents(maps.tags))) {
        Some(unreadable())
    } else if from < 3 && !migratable(m) {
        Some("decode schema 2 harberger config"@)
    } else {
        None
    }
}

/// The slots after an upgrade: a schema 2 config in its current shape, and
/// the schema version of this code.
pub open spec fn upgraded_slots(m: Map<Slot, Seq<u8>>) -> Map<Slot, Seq<u8>> {
    match lookup(m, Slot::Harberger) {
        Some(b) => if schema_at(m) < 3 && config_in(b) is None {
            noted(m.insert(Slot::Harberger, config_bytes(v2_in(b)->0)))
        } else {
            noted(m)
        },
        None => noted(m),
    }
}

/// What the registry holds after an upgrade.
pub open spec fn upgraded(maps: StableMaps, m: Map<Slot, Seq<u8>>) -> RegistryState {
    let s = state_of(maps, m);
    opened(
        StoreState {
            tags: if schema_at(m) < 2 {
                index_of(s.records)
            } else {
                s.tags
            },
            settings: SettingsState {
                config: upgraded_config(m),
                schema: SCHEMA,
                ..s.settings
            },
            ..s
        },
    )
}

/// Whether every map lives in the virtual memory that is its own.
pub open spec fn laid_out(maps: StableMaps) -> bool {
    &&& memory_of(maps.handles) == MEM_HANDLES
    &&& memory_of(maps.records) == MEM_RECORDS
    &&& memory_of(maps.deployers) == MEM_DEPLOYERS
    &&& memory_of(maps.tags) == MEM_TAGS
    &&& memory_of(maps.credits) == MEM_CREDITS
    &&& memory_of(maps.auctions) == MEM_AUCTIONS
}

/// The maps and the settings of the stable memory, each in the virtual memory
/// that is its own. What they hold is whatever an earlier version left there,
/// so nothing is claimed of it.
///
/// A program calls this once: a second call gives maps over the same memory,
/// and a write through one of them would change what the others hold.
pub fn attach() -> (r: (StableMaps, Meta))
    ensures
        laid_out(r.0),
        r.1.memory() == MEM_META,
{
    let ids: Vec<u8> = vec![
        MEM_HANDLES,
        MEM_RECORDS,
        MEM_DEPLOYERS,
        MEM_TAGS,
        MEM_META,
        MEM_CREDITS,
        MEM_AUCTIONS,
    ];
    let mut maps = open_maps(&ids);
    let auctions = maps.pop().unwrap();
    let credits = maps.pop().unwrap();
    let settings = maps.pop().unwrap();
    let tags = maps.pop().unwrap();
    let deployers = maps.pop().unwrap();
    let records = maps.pop().unwrap();
    let handles = maps.pop().unwrap();
    let maps = StableMaps { handles, records, deployers, tags, credits, auctions };
    (maps, Meta::from_stable(settings))
}

/// Stable memory that is ready for this code, and the certified tree over
/// its records, which is heap state.
pub struct Started {
    pub maps: StableMaps,
    pub meta: Meta,
    pub tree: Tree,
}

impl Started {
    /// Whether every stored value can be read.
    pub open spec fn readable(self) -> bool {
        maps_readable(self.maps) && configs_readable(self.meta@)
    }

    /// The registry over the stable memory, with nothing in flight.
    pub open spec fn registry(self) -> RegistryState {
        RegistryState {
            store: state_of(self.maps, self.meta@),
            leaves: self.tree@,
            in_flight: 0,
        }
    }

    /// The registry that answers calls, where every stored value can be
    /// read. Neither a start nor an upgrade asks for that; a call that met
    /// an unreadable value could not be answered.
    pub fn open(self) -> (r: Result<Registry, String>)
        ensures
            r is Ok <==> self.readable(),
            r matches Ok(reg) ==> reg@ == self.registry(),
            r matches Err(e) ==> e@ == unreadable(),
    {
        let Started { maps, meta, tree } = self;
        match Store::open(maps, meta) {
            Some(store) => Ok(Registry { store, tree, in_flight: 0 }),
            None => Err("stored data does not decode".to_string()),
        }
    }
}

/// Whether a start over the given maps and slots came to `s`: the maps as
/// they were, the schema version noted, and a leaf for every record.
pub open spec fn is_start(maps: StableMaps, m: Map<Slot, Seq<u8>>, s: Started) -> bool {
    &&& s.maps == maps
    &&& s.meta@ == noted(m)
    &&& s.tree@ == leaves_of(records_in(maps))
    &&& configs_readable(s.meta@) <==> configs_readable(m)
    &&& settings_of(s.meta@) == (SettingsState { schema: SCHEMA, ..settings_of(m) })
}

/// Whether an upgrade of the given maps and slots came to `s`: the tag index
/// built anew where the data predates it, the config in its current shape,
/// the schema version noted, all else as it was, and a leaf for every
/// record.
pub open spec fn is_upgrade(maps: StableMaps, m: Map<Slot, Seq<u8>>, s: Started) -> bool {
    &&& s.maps == (StableMaps { tags: s.maps.tags, ..maps })
    &&& if schema_at(m) < 2 {
        readable::<Mark>(contents(s.maps.tags)) && by_text::<Mark>(contents(s.maps.tags)).dom()
            == index_of(records_in(maps))
    } else {
        s.maps.tags == maps.tags
    }
    &&& s.meta@ == upgraded_slots(m)
    &&& s.tree@ == leaves_of(records_in(maps))
    &&& configs_readable(s.meta@) <==> auction_readable(m) && (schema_at(m) == 3
        ==> configs_readable(m))
    &&& configs_readable(s.meta@) ==> settings_of(s.meta@) == (SettingsState {
        config: upgraded_config(m),
        schema: SCHEMA,
        ..settings_of(m)
    })
}

/// The certified tree over records with their names.
fn tree_of(
    names: &Vec<String>,
    records: &Vec<Record>,
    by_name: Ghost<Map<Seq<char>, RecordState>>,
) -> (r: Tree)
    requires
        texts(names@) == texts_in_order(by_name@.dom()),
        lists_texts(texts(names@), by_name@.dom()),
        views(records@) == values_in_order(by_name@),
    ensures
        r@ == leaves_of(by_name@),
{
    let ghost all = texts(names@);
    let mut pairs: Vec<(String, Vec<u8>)> = Vec::new();
    let mut i: usize = 0;
    proof {
        assert(views(records@).len() == records@.len());
        assert(all.len() == names@.len());
    }
    while i < records.len()
        invariant
            i <= records@.len(),
            records@.len() == names@.len(),
            all == texts(names@),
            all == texts_in_order(by_name@.dom()),
            views(records@) == values_in_order(by_name@),
            pairs@.len() == i,
            forall|j: int|
                0 <= j < i ==> (#[trigger] pairs@[j]).0@ == all[j] && pairs@[j].1@
                    == canonical_bytes(by_name@[pairs@[j].0@]),
        decreases records.len() - i,
    {
        proof {
            assert(all[i as int] == names@[i as int]@);
            assert(views(records@)[i as int] == records@[i as int]@);
        }
        pairs.push((names[i].clone(), records[i].canonical()));
        i += 1;
    }
    certify::tree_over(&pairs, by_name)
}

/// Start over stable memory that no version has written yet: note the
/// schema version and build the certified tree.
pub fn init(maps: StableMaps, meta: Meta) -> (r: Result<Started, String>)
    ensures
        r is Ok <==> records_decode(maps),
        r matches Ok(s) ==> is_start(maps, meta@, s),
        r matches Err(e) ==> e@ == unreadable(),
{
    let (names, records) = match read_all::<Record>(&maps.records) {
        Some(all) => all,
        None => {
            return Err("stored data does not decode".to_string());
        },
    };
    let tree = tree_of(&names, &records, Ghost(records_in(maps)));
    let mut meta = meta;
    meta.set_schema_version(SCHEMA);
    Ok(Started { maps, meta, tree })
}

/// Take over stable memory that an earlier version wrote. The certified tree
/// is heap state and is rebuilt on every upgrade. The tag index is stable
/// memory kept in step on every write, so it is only rebuilt when the schema
/// version says the stored data predates it. A newer schema than this code
/// knows is refused rather than misread.
pub fn post_upgrade(maps: StableMaps, meta: Meta) -> (r: Result<Started, String>)
    ensures
        r is Ok <==> upgrade_fault(maps, meta@) is None,
        r matches Ok(s) ==> is_upgrade(maps, meta@, s),
        r matches Err(e) ==> upgrade_fault(maps, meta@) == Some(e@),
{
    let from: u32 = meta.schema_version();
    if from > SCHEMA {
        return Err(
            join3(
                "stable memory schema ",
                decimal_text(from as u128).as_str(),
                " is newer than this code's 3",
            ),
        );
    }
    let (names, records) = match read_all::<Record>(&maps.records) {
        Some(all) => all,
        None => {
            return Err("stored data does not decode".to_string());
        },
    };
    let ghost by_name = records_in(maps);
    let tree = tree_of(&names, &records, Ghost(by_name));
    let StableMaps { handles, records: stored, deployers, tags, credits, auctions } = maps;
    let mut meta = meta;
    let tags = if from < 2 {
        let mut index = match TextMap::<Mark>::from_stable(tags) {
            Some(index) => index,
            None => {
                return Err("stored data does not decode".to_string());
            },
        };
        match harberger::migrate_config_from_v2(&mut meta) {
            Err(e) => {
                return Err(e);
            },
            Ok(_) => {},
        }
        directory::refill(&mut index, &records, Ghost(by_name));
        index.into_stable()
    } else {
        if from < 3 {
            match harberger::migrate_config_from_v2(&mut meta) {
                Err(e) => {
                    return Err(e);
                },
                Ok(_) => {},
            }
        }
        tags
    };
    meta.set_schema_version(SCHEMA);
    let maps = StableMaps { handles, records: stored, deployers, tags, credits, auctions };
    Ok(Started { maps, meta, tree })
}

/// A start gives the registry that the maps and slots hold, with the schema
/// version of this code, as soon as all of it can be read.
pub proof fn law_start_opens(maps: StableMaps, m: Map<Slot, Seq<u8>>, s: Started)
    requires
        is_start(maps, m, s),
    ensures
        s.readable() <==> maps_readable(maps) && configs_readable(m),
        s.registry() == initial(maps, m),
{
}

/// An upgrade gives the upgraded registry as soon as all that was stored can
/// be read.
pub proof fn law_upgrade_opens(maps: StableMaps, m: Map<Slot, Seq<u8>>, s: Started)
    requires
        upgrade_fault(maps, m) is None,
        is_upgrade(maps, m, s),
    ensures
        s.readable() <==> maps_readable(maps) && auction_readable(m) && (schema_at(m) == 3
            ==> configs_readable(m)),
        s.readable() ==> s.registry() == upgraded(maps, m),
{
}

/// An upgrade brings back a sound registry: one whose stored data was sound
/// with the tree over it, or would be once its tag index is built, is sound
/// afterwards, with every handle, record, credit and auction as it was.
pub proof fn law_upgrade_keeps_the_registry(maps: StableMaps, m: Map<Slot, Seq<u8>>)
    ensures
        ({
            let before = state_of(maps, m);
            let after = upgraded(maps, m);
            let tagged = StoreState { tags: index_of(before.records), ..before };
            &&& after.store.handles == before.handles
            &&& after.store.records == before.records
            &&& after.store.deployers == before.deployers
            &&& after.store.credits == before.credits
            &&& after.store.auctions == before.auctions
            &&& sound(opened(before)) ==> sound(after)
            &&& schema_at(m) < 2 && sound(opened(tagged)) ==> sound(after)
        }),
{
    let before = state_of(maps, m);
    let after = upgraded(maps, m);
    let tagged = StoreState { tags: index_of(before.records), ..before };
    if sound(opened(before)) {
        lemma_sound_parts(opened(before), after);
    }
    if schema_at(m) < 2 && sound(opened(tagged)) {
        lemma_sound_parts(opened(tagged), after);
    }
}

/// Being sound is a matter of the maps and the tree alone.
proof fn lemma_sound_parts(a: RegistryState, b: RegistryState)
    requires
        sound(a),
        a.leaves == b.leaves,
        a.store.tags == b.store.tags,
        a.store.records == b.store.records,
        a.store.handles == b.store.handles,
        a.store.auctions == b.store.auctions,
    ensures
        sound(b),
{
}

/// A registry without handles, records, tags and auctions is sound.
pub proof fn law_empty_registry_is_sound(s: StoreState)
    requires
        s.handles.dom() == Set::<Seq<char>>::empty(),
        s.records.dom() == Set::<Seq<char>>::empty(),
        s.tags == Set::<Seq<char>>::empty(),
        s.auctions.dom() == Set::<Seq<char>>::empty(),
    ensures
        sound(opened(s)),
{
    assert forall|n: Seq<char>| !#[trigger] s.records.contains_key(n) by {
        assert(!s.records.dom().contains(n));
    }
    assert forall|n: Seq<char>| !#[trigger] s.handles.contains_key(n) by {
        assert(!s.handles.dom().contains(n));
    }
    assert forall|n: Seq<char>| !#[trigger] s.auctions.contains_key(n) by {
        assert(!s.auctions.dom().contains(n));
    }
    assert(s.tags =~= index_of(s.records));
}

/// Stored data is taken over exactly where it is of no newer schema than 3,
/// its records can be read, its tag index too where it has to be built anew,
/// and its config where it has to be rewritten: as a current one or as one
/// of schema 2.
pub proof fn law_readable_data_is_taken_over(maps: StableMaps, m: Map<Slot, Seq<u8>>)
    ensures
        upgrade_fault(maps, m) is None <==> {
            &&& schema_at(m) <= 3
            &&& decodes::<Record>(contents(maps.records))
            &&& schema_at(m) < 2 ==> readable::<Mark>(contents(maps.tags))
            &&& schema_at(m) < 3 ==> (lookup(m, Slot::Harberger) matches Some(b) ==> config_in(b)
                is Some || v2_in(b) is Some)
        },
{
}

/// An upgrade keeps every counter and the auction settings, and the config
/// where it reads as a current one; an older one keeps its values in the
/// current shape. Only the schema version becomes this code's.
pub proof fn law_upgrade_keeps_the_settings(maps: StableMaps, m: Map<Slot, Seq<u8>>)
    ensures
        ({
            let before = settings_of(m);
            let after = upgraded(maps, m).store.settings;
            &&& after.tax_collected == before.tax_collected
            &&& after.tax_withdrawn == before.tax_withdrawn
            &&& after.unreconciled == before.unreconciled
            &&& after.unreconciled_last == before.unreconciled_last
            &&& after.proceeds == before.proceeds
            &&& after.auction == before.auction
            &&& after.schema == 3
            &&& match lookup(m, Slot::Harberger) {
                None => after.config == default_config(),
                Some(b) => match config_in(b) {
                    Some(c) => after.config == c,
                    None => v2_in(b) matches Some(c) ==> after.config == c,
                },
            }
        }),
{
}

/// A start keeps all that the maps and slots hold, notes schema 3, certifies
/// every record and has nothing in flight.
pub proof fn law_start_keeps_everything(maps: StableMaps, m: Map<Slot, Seq<u8>>)
    ensures
        ({
            let before = state_of(maps, m);
            let after = initial(maps, m);
            &&& after.store == (StoreState {
                settings: SettingsState { schema: 3, ..before.settings },
                ..before
            })
            &&& after.leaves == leaves_of(before.records)
            &&& after.in_flight == 0
        }),
{
}

} // verus!
