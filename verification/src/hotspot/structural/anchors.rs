//! Why what is found by shape can be believed: the classes are those of the pools, the anchor is the
//! best there is, and what hangs on it was validated.
use vstd::prelude::*;
use vstd::utf8::encode_utf8;

use super::found::scan_finds_the_symbols;
use super::layout::{core_layout_of, is_symbol, profile_score, within, CoreLayout, OBJECT_NAME};
use super::scan::{symbols_found, words_found};
use super::{
    anchor_check, anchor_of, class_named, class_of_pool, classes_by_pool, is_internal_name,
    locations_tried, offset_tried, offsets_tried, pool_met, pools_met, structure_of, symbols_tried,
    AnchorCandidate, AnchorSearch, PoolWalk, MAX_ANCHOR_HITS, MAX_CLASSES, MAX_POINTER_HITS,
};
use crate::hotspot::dictionary::{are_distinct, ClassView};
use crate::platform::{u64_at, Contents, MemoryRegion};

verus! {

/// Whether a pool names the class at `klass` as its holder.
pub open spec fn is_held_by(memory: Contents, core: CoreLayout, pool: u64, klass: u64) -> bool {
    u64_at(memory, pool.wrapping_add(core.cp_holder)) == Ok::<u64, Seq<char>>(klass)
}

/// Whether the `index`-th pool is the first one that names the class at `klass` as its holder.
pub open spec fn is_first_held_by(
    memory: Contents,
    core: CoreLayout,
    pools: Seq<u64>,
    index: int,
    klass: u64,
) -> bool {
    &&& is_held_by(memory, core, pools[index], klass)
    &&& forall|i: int| 0 <= i < index ==> !is_held_by(memory, core, #[trigger] pools[i], klass)
}

/// Whether one of the first `count` pools is the first of its holder and shows it to be a class.
pub open spec fn is_led_to(
    memory: Contents,
    core: CoreLayout,
    jvm_base: u64,
    jvm_end: u64,
    pools: Seq<u64>,
    count: nat,
    class: ClassView,
) -> bool {
    exists|index: int|
        0 <= index < count && #[trigger] is_first_held_by(
            memory,
            core,
            pools,
            index,
            class.klass,
        ) && class_of_pool(memory, core, jvm_base, jvm_end, pools[index], class.klass) == Some(
            class,
        )
}

/// Whether a walk met the holders of the first `count` pools and lists the classes among them.
spec fn is_accounted(
    memory: Contents,
    core: CoreLayout,
    jvm_base: u64,
    jvm_end: u64,
    pools: Seq<u64>,
    count: nat,
    walk: PoolWalk,
) -> bool {
    &&& are_distinct(walk.classes)
    &&& forall|klass: u64| #[trigger]
        walk.klasses.contains(klass) <==> klass != 0 && exists|i: int|
            0 <= i < count && is_held_by(memory, core, #[trigger] pools[i], klass)
    &&& forall|class: ClassView| #[trigger]
        walk.classes.contains(class) <==> class.klass != 0 && is_led_to(
            memory,
            core,
            jvm_base,
            jvm_end,
            pools,
            count,
            class,
        )
}

proof fn met_pools_are_accounted(
    memory: Contents,
    core: CoreLayout,
    jvm_base: u64,
    jvm_end: u64,
    pools: Seq<u64>,
    count: nat,
)
    requires
        count <= pools.len(),
    ensures
        is_accounted(
            memory,
            core,
            jvm_base,
            jvm_end,
            pools,
            count,
            pools_met(memory, core, jvm_base, jvm_end, pools, count),
        ),
    decreases count,
{
    if count > 0 {
        let last = (count - 1) as nat;
        let pool = pools[last as int];
        met_pools_are_accounted(memory, core, jvm_base, jvm_end, pools, last);
        let before = pools_met(memory, core, jvm_base, jvm_end, pools, last);
        let after = pools_met(memory, core, jvm_base, jvm_end, pools, count);
        assert(after == pool_met(memory, core, jvm_base, jvm_end, pool, before));
        assert forall|klass: u64| #[trigger] after.klasses.contains(klass) <==> klass != 0
            && exists|i: int|
            0 <= i < count && is_held_by(memory, core, #[trigger] pools[i], klass) by {
            if before.klasses.contains(klass) {
                let i = choose|i: int|
                    0 <= i < last && is_held_by(memory, core, #[trigger] pools[i], klass);
                assert(0 <= i < count && is_held_by(memory, core, pools[i], klass));
            }
            if klass != 0 && is_held_by(memory, core, pool, klass) {
                assert(is_held_by(memory, core, pools[last as int], klass));
            }
            if klass != 0 && exists|i: int|
                0 <= i < count && is_held_by(memory, core, #[trigger] pools[i], klass) {
                let i = choose|i: int|
                    0 <= i < count && is_held_by(memory, core, #[trigger] pools[i], klass);
                if i < last {
                    assert(before.klasses.contains(klass));
                }
            }
        }
        assert forall|i: int| 0 <= i < before.classes.len() implies before.klasses.contains(
            (#[trigger] before.classes[i]).klass,
        ) by {
            let class = before.classes[i];
            assert(before.classes.contains(class));
            let index = choose|index: int|
                0 <= index < last && #[trigger] is_first_held_by(
                    memory,
                    core,
                    pools,
                    index,
                    class.klass,
                ) && class_of_pool(
                    memory,
                    core,
                    jvm_base,
                    jvm_end,
                    pools[index],
                    class.klass,
                ) == Some(class);
            assert(is_held_by(memory, core, pools[index], class.klass));
        }
        assert forall|i: int, j: int| 0 <= i < j < after.classes.len() implies (
        #[trigger] after.classes[i]).klass != (#[trigger] after.classes[j]).klass by {
            assert(after.classes[i] == before.classes[i]);
            if j < before.classes.len() {
                assert(after.classes[j] == before.classes[j]);
            }
        }
        assert forall|i: int| 0 <= i < after.classes.len() implies (
        #[trigger] after.classes[i]).klass != 0 by {
            if i < before.classes.len() {
                assert(after.classes[i] == before.classes[i]);
            }
        }
        assert forall|class: ClassView| #[trigger] after.classes.contains(class) <==> class.klass
            != 0 && is_led_to(
            memory,
            core,
            jvm_base,
            jvm_end,
            pools,
            count,
            class,
        ) by {
            class_is_led_to(memory, core, jvm_base, jvm_end, pools, last, before, class);
        }
    }
}

proof fn class_is_led_to(
    memory: Contents,
    core: CoreLayout,
    jvm_base: u64,
    jvm_end: u64,
    pools: Seq<u64>,
    count: nat,
    walk: PoolWalk,
    class: ClassView,
)
    requires
        count < pools.len(),
        is_accounted(memory, core, jvm_base, jvm_end, pools, count, walk),
    ensures
        pool_met(memory, core, jvm_base, jvm_end, pools[count as int], walk).classes.contains(class)
            <==> class.klass != 0 && is_led_to(
            memory,
            core,
            jvm_base,
            jvm_end,
            pools,
            count + 1,
            class,
        ),
{
    let pool = pools[count as int];
    let after = pool_met(memory, core, jvm_base, jvm_end, pool, walk);
    let is_new = class.klass != 0 && is_held_by(memory, core, pool, class.klass)
        && !walk.klasses.contains(class.klass) && class_of_pool(
        memory,
        core,
        jvm_base,
        jvm_end,
        pool,
        class.klass,
    ) == Some(class);
    assert(after.classes.contains(class) <==> walk.classes.contains(class) || is_new) by {
        if walk.classes.contains(class) {
            let i = choose|i: int| 0 <= i < walk.classes.len() && walk.classes[i] == class;
            assert(after.classes[i] == class);
        }
        if is_new {
            assert(after.classes.last() == class);
        }
        if after.classes.contains(class) {
            let i = choose|i: int| 0 <= i < after.classes.len() && after.classes[i] == class;
            if i < walk.classes.len() {
                assert(walk.classes[i] == class);
            }
        }
    }
    if walk.classes.contains(class) {
        let index = choose|index: int|
            0 <= index < count && #[trigger] is_first_held_by(
                memory,
                core,
                pools,
                index,
                class.klass,
            ) && class_of_pool(memory, core, jvm_base, jvm_end, pools[index], class.klass) == Some(
                class,
            );
        assert(0 <= index < count + 1 && is_first_held_by(memory, core, pools, index, class.klass));
    }
    if is_new {
        assert forall|i: int| 0 <= i < count implies !is_held_by(
            memory,
            core,
            #[trigger] pools[i],
            class.klass,
        ) by {
            if is_held_by(memory, core, pools[i], class.klass) {
                assert(walk.klasses.contains(class.klass));
            }
        }
        assert(is_first_held_by(memory, core, pools, count as int, class.klass));
    }
    if class.klass != 0 && is_led_to(memory, core, jvm_base, jvm_end, pools, count + 1, class) {
        let index = choose|index: int|
            0 <= index < count + 1 && #[trigger] is_first_held_by(
                memory,
                core,
                pools,
                index,
                class.klass,
            ) && class_of_pool(memory, core, jvm_base, jvm_end, pools[index], class.klass) == Some(
                class,
            );
        if index < count {
            assert(is_led_to(memory, core, jvm_base, jvm_end, pools, count, class));
        } else if walk.klasses.contains(class.klass) {
            let i = choose|i: int|
                0 <= i < count && is_held_by(memory, core, #[trigger] pools[i], class.klass);
            assert(!is_held_by(memory, core, pools[i], class.klass));
        }
    }
}

/// The enumeration of the pools gives each class once: the classes that are at the holder of a pool
/// which is the first to name that holder, all of them and no others. Each has a name in internal
/// form.
pub proof fn enumerated_classes_are_those_of_the_pools(
    memory: Contents,
    regions: Seq<MemoryRegion>,
    cp_vtable: u64,
    core: CoreLayout,
    jvm_base: u64,
    jvm_end: u64,
)
    ensures
        classes_by_pool(memory, regions, cp_vtable, core, jvm_base, jvm_end) matches Ok(classes)
            ==> {
            let pools = words_found(memory, regions, cp_vtable, (MAX_CLASSES + 1) as nat);
            &&& are_distinct(classes)
            &&& forall|class: ClassView| #[trigger]
                classes.contains(class) <==> class.klass != 0 && is_led_to(
                    memory,
                    core,
                    jvm_base,
                    jvm_end,
                    pools,
                    pools.len(),
                    class,
                )
            &&& forall|i: int|
                0 <= i < classes.len() ==> is_internal_name((#[trigger] classes[i]).internal_name)
        },
{
    let pools = words_found(memory, regions, cp_vtable, (MAX_CLASSES + 1) as nat);
    met_pools_are_accounted(memory, core, jvm_base, jvm_end, pools, pools.len());
    if let Ok(classes) = classes_by_pool(memory, regions, cp_vtable, core, jvm_base, jvm_end) {
        assert forall|i: int| 0 <= i < classes.len() implies is_internal_name(
            (#[trigger] classes[i]).internal_name,
        ) by {
            assert(classes.contains(classes[i]));
        }
    }
}

/// The candidate that a reference to `symbol` at `location` makes, taken as the name of a class that
/// starts `name_offset` before it.
#[verifier::opaque]
pub open spec fn candidate_at(
    memory: Contents,
    jvm_base: u64,
    jvm_end: u64,
    symbol: u64,
    location: u64,
    name_offset: u64,
) -> Option<AnchorCandidate> {
    let klass = (location - name_offset) as u64;
    if location < name_offset {
        None
    } else if !(u64_at(memory, klass) matches Ok(vtable) && within(jvm_base, jvm_end, vtable)) {
        None
    } else {
        match core_layout_of(memory, klass, name_offset, jvm_base, jvm_end) {
            Err(_) => None,
            Ok(layout) => Some(
                AnchorCandidate {
                    score: profile_score(memory, klass, layout, jvm_base, jvm_end) as usize,
                    symbol,
                    klass,
                    layout,
                },
            ),
        }
    }
}

/// Whether a candidate is no worse than another, if there is another.
pub open spec fn is_no_worse(best: Option<AnchorCandidate>, other: Option<AnchorCandidate>) -> bool {
    other matches Some(other) ==> (best matches Some(best) && other.score <= best.score)
}

/// Whether an offset is one of those tried for the name of a class.
pub open spec fn is_name_offset(offset: u64) -> bool {
    8 <= offset <= 0x80 && offset % 8 == 0
}

/// Whether a reference to a symbol makes the candidate.
pub open spec fn is_made_at(
    memory: Contents,
    jvm_base: u64,
    jvm_end: u64,
    symbol: u64,
    location: u64,
    made: Option<AnchorCandidate>,
) -> bool {
    made is Some && exists|offset: u64|
        is_name_offset(offset) && #[trigger] candidate_at(
            memory,
            jvm_base,
            jvm_end,
            symbol,
            location,
            offset,
        ) == made
}

proof fn offset_finds_the_better(
    memory: Contents,
    jvm_base: u64,
    jvm_end: u64,
    symbol: u64,
    location: u64,
    name_offset: u64,
    search: AnchorSearch,
)
    ensures
        ({
            let after = offset_tried(
                memory,
                jvm_base,
                jvm_end,
                symbol,
                location,
                name_offset,
                search,
            ).best;
            let made = candidate_at(memory, jvm_base, jvm_end, symbol, location, name_offset);
            &&& after == search.best || (made is Some && after == made)
            &&& is_no_worse(after, search.best)
            &&& is_no_worse(after, made)
        }),
{
    reveal(offset_tried);
    reveal(candidate_at);
}

proof fn offsets_find_the_best(
    memory: Contents,
    jvm_base: u64,
    jvm_end: u64,
    symbol: u64,
    location: u64,
    name_offset: u64,
    search: AnchorSearch,
)
    requires
        8 <= name_offset,
        name_offset % 8 == 0,
    ensures
        ({
            let after = offsets_tried(
                memory,
                jvm_base,
                jvm_end,
                symbol,
                location,
                name_offset,
                search,
            ).best;
            &&& is_no_worse(after, search.best)
            &&& forall|offset: u64|
                name_offset <= offset && is_name_offset(offset) ==> is_no_worse(
                    after,
                    #[trigger] candidate_at(memory, jvm_base, jvm_end, symbol, location, offset),
                )
            &&& after == search.best || is_made_at(
                memory,
                jvm_base,
                jvm_end,
                symbol,
                location,
                after,
            )
        }),
    decreases 0x88 - name_offset,
{
    if name_offset <= 0x80 {
        let next = offset_tried(memory, jvm_base, jvm_end, symbol, location, name_offset, search);
        offset_finds_the_better(
            memory,
            jvm_base,
            jvm_end,
            symbol,
            location,
            name_offset,
            search,
        );
        offsets_find_the_best(
            memory,
            jvm_base,
            jvm_end,
            symbol,
            location,
            (name_offset + 8) as u64,
            next,
        );
    }
}

proof fn locations_find_the_best(
    memory: Contents,
    jvm_base: u64,
    jvm_end: u64,
    symbol: u64,
    locations: Seq<u64>,
    count: nat,
    search: AnchorSearch,
)
    requires
        count <= locations.len(),
    ensures
        ({
            let after = locations_tried(
                memory,
                jvm_base,
                jvm_end,
                symbol,
                locations,
                count,
                search,
            ).best;
            &&& is_no_worse(after, search.best)
            &&& forall|i: int, offset: u64|
                0 <= i < count && is_name_offset(offset) ==> is_no_worse(
                    after,
                    #[trigger] candidate_at(
                        memory,
                        jvm_base,
                        jvm_end,
                        symbol,
                        locations[i],
                        offset,
                    ),
                )
            &&& after == search.best || exists|i: int|
                0 <= i < count && is_made_at(
                    memory,
                    jvm_base,
                    jvm_end,
                    symbol,
                    #[trigger] locations[i],
                    after,
                )
        }),
    decreases count,
{
    if count > 0 {
        let last = (count - 1) as nat;
        locations_find_the_best(memory, jvm_base, jvm_end, symbol, locations, last, search);
        let before = locations_tried(memory, jvm_base, jvm_end, symbol, locations, last, search);
        offsets_find_the_best(
            memory,
            jvm_base,
            jvm_end,
            symbol,
            locations[last as int],
            8,
            before,
        );
    }
}

proof fn symbols_find_the_best(
    memory: Contents,
    regions: Seq<MemoryRegion>,
    jvm_base: u64,
    jvm_end: u64,
    symbols: Seq<u64>,
    count: nat,
)
    requires
        count <= symbols.len(),
    ensures
        ({
            let after = symbols_tried(memory, regions, jvm_base, jvm_end, symbols, count).best;
            &&& forall|s: int, i: int, offset: u64|
                0 <= s < count && 0 <= i < words_found(
                    memory,
                    regions,
                    symbols[s],
                    MAX_POINTER_HITS as nat,
                ).len() && is_name_offset(offset) ==> is_no_worse(
                    after,
                    #[trigger] candidate_at(
                        memory,
                        jvm_base,
                        jvm_end,
                        symbols[s],
                        words_found(memory, regions, symbols[s], MAX_POINTER_HITS as nat)[i],
                        offset,
                    ),
                )
            &&& after is Some ==> exists|s: int, i: int|
                0 <= s < count && 0 <= i < words_found(
                    memory,
                    regions,
                    symbols[s],
                    MAX_POINTER_HITS as nat,
                ).len() && is_made_at(
                    memory,
                    jvm_base,
                    jvm_end,
                    symbols[s],
                    #[trigger] words_found(
                        memory,
                        regions,
                        symbols[s],
                        MAX_POINTER_HITS as nat,
                    )[i],
                    after,
                )
        }),
    decreases count,
{
    if count > 0 {
        let last = (count - 1) as nat;
        symbols_find_the_best(memory, regions, jvm_base, jvm_end, symbols, last);
        let before = symbols_tried(memory, regions, jvm_base, jvm_end, symbols, last);
        let symbol = symbols[last as int];
        let locations = words_found(memory, regions, symbol, MAX_POINTER_HITS as nat);
        locations_find_the_best(
            memory,
            jvm_base,
            jvm_end,
            symbol,
            locations,
            locations.len(),
            before,
        );
        let after = symbols_tried(memory, regions, jvm_base, jvm_end, symbols, count).best;
        if after is Some && after != before.best {
            let i = choose|i: int|
                0 <= i < locations.len() && is_made_at(
                    memory,
                    jvm_base,
                    jvm_end,
                    symbol,
                    #[trigger] locations[i],
                    after,
                );
            assert(is_made_at(
                memory,
                jvm_base,
                jvm_end,
                symbols[last as int],
                words_found(memory, regions, symbols[last as int], MAX_POINTER_HITS as nat)[i],
                after,
            ));
        }
        assert forall|s: int, i: int, offset: u64|
            0 <= s < count && 0 <= i < words_found(
                memory,
                regions,
                symbols[s],
                MAX_POINTER_HITS as nat,
            ).len() && is_name_offset(offset) implies is_no_worse(
            after,
            #[trigger] candidate_at(
                memory,
                jvm_base,
                jvm_end,
                symbols[s],
                words_found(memory, regions, symbols[s], MAX_POINTER_HITS as nat)[i],
                offset,
            ),
        ) by {
            if s < last {
                assert(is_no_worse(
                    before.best,
                    candidate_at(
                        memory,
                        jvm_base,
                        jvm_end,
                        symbols[s],
                        words_found(memory, regions, symbols[s], MAX_POINTER_HITS as nat)[i],
                        offset,
                    ),
                ));
            } else {
                assert(is_no_worse(
                    after,
                    candidate_at(memory, jvm_base, jvm_end, symbol, locations[i], offset),
                ));
            }
        }
    }
}

/// The anchor is a candidate that a reference to one of the symbols makes, and no reference to any
/// of them makes a better one.
pub proof fn anchor_is_the_best_candidate(
    memory: Contents,
    regions: Seq<MemoryRegion>,
    symbols: Seq<u64>,
    jvm_base: u64,
    jvm_end: u64,
)
    ensures
        anchor_of(memory, regions, symbols, jvm_base, jvm_end) matches Ok(best) ==> {
            &&& symbols.contains(best.symbol)
            &&& exists|location: u64| #[trigger]
                is_made_at(memory, jvm_base, jvm_end, best.symbol, location, Some(best))
            &&& forall|s: int, i: int, offset: u64|
                0 <= s < symbols.len() && 0 <= i < words_found(
                    memory,
                    regions,
                    symbols[s],
                    MAX_POINTER_HITS as nat,
                ).len() && is_name_offset(offset) ==> is_no_worse(
                    Some(best),
                    #[trigger] candidate_at(
                        memory,
                        jvm_base,
                        jvm_end,
                        symbols[s],
                        words_found(memory, regions, symbols[s], MAX_POINTER_HITS as nat)[i],
                        offset,
                    ),
                )
        },
{
    symbols_find_the_best(memory, regions, jvm_base, jvm_end, symbols, symbols.len());
    if let Ok(best) = anchor_of(memory, regions, symbols, jvm_base, jvm_end) {
        let (s, i) = choose|s: int, i: int|
            0 <= s < symbols.len() && 0 <= i < words_found(
                memory,
                regions,
                symbols[s],
                MAX_POINTER_HITS as nat,
            ).len() && is_made_at(
                memory,
                jvm_base,
                jvm_end,
                symbols[s],
                #[trigger] words_found(memory, regions, symbols[s], MAX_POINTER_HITS as nat)[i],
                Some(best),
            );
        assert(symbols[s] == best.symbol) by {
            reveal(candidate_at);
        }
    }
}

/// The candidates that a reference to `symbol` at `location` makes, with the offsets from
/// `name_offset` on.
pub open spec fn candidates_at(
    memory: Contents,
    jvm_base: u64,
    jvm_end: u64,
    symbol: u64,
    location: u64,
    name_offset: u64,
) -> Seq<AnchorCandidate>
    decreases 0x88 - name_offset,
{
    if name_offset > 0x80 {
        Seq::empty()
    } else {
        (match candidate_at(memory, jvm_base, jvm_end, symbol, location, name_offset) {
            None => Seq::empty(),
            Some(candidate) => seq![candidate],
        }) + candidates_at(
            memory,
            jvm_base,
            jvm_end,
            symbol,
            location,
            (name_offset + 8) as u64,
        )
    }
}

/// The candidates that the first `count` references to `symbol` make.
pub open spec fn candidates_to(
    memory: Contents,
    jvm_base: u64,
    jvm_end: u64,
    symbol: u64,
    locations: Seq<u64>,
    count: nat,
) -> Seq<AnchorCandidate>
    decreases count,
{
    if count == 0 {
        Seq::empty()
    } else {
        candidates_to(memory, jvm_base, jvm_end, symbol, locations, (count - 1) as nat)
            + candidates_at(memory, jvm_base, jvm_end, symbol, locations[count - 1], 8)
    }
}

/// The candidates that the references to the first `count` symbols make, in the order in which they
/// are met.
pub open spec fn candidates_of(
    memory: Contents,
    regions: Seq<MemoryRegion>,
    jvm_base: u64,
    jvm_end: u64,
    symbols: Seq<u64>,
    count: nat,
) -> Seq<AnchorCandidate>
    decreases count,
{
    if count == 0 {
        Seq::empty()
    } else {
        let symbol = symbols[count - 1];
        let locations = words_found(memory, regions, symbol, MAX_POINTER_HITS as nat);
        candidates_of(memory, regions, jvm_base, jvm_end, symbols, (count - 1) as nat)
            + candidates_to(memory, jvm_base, jvm_end, symbol, locations, locations.len())
    }
}

/// The best of a candidate so far and those of a list: the first one of the highest score.
spec fn best_of(best: Option<AnchorCandidate>, candidates: Seq<AnchorCandidate>) -> Option<
    AnchorCandidate,
>
    decreases candidates.len(),
{
    if candidates.len() == 0 {
        best
    } else {
        let before = best_of(best, candidates.drop_last());
        if before matches Some(old) && candidates.last().score <= old.score {
            before
        } else {
            Some(candidates.last())
        }
    }
}

proof fn best_of_joined(
    best: Option<AnchorCandidate>,
    a: Seq<AnchorCandidate>,
    b: Seq<AnchorCandidate>,
)
    ensures
        best_of(best, a + b) == best_of(best_of(best, a), b),
    decreases b.len(),
{
    if b.len() == 0 {
        assert(a + b =~= a);
    } else {
        best_of_joined(best, a, b.drop_last());
        assert((a + b).drop_last() =~= a + b.drop_last());
    }
}

/// Whether a search took in the candidates: it counted each, and kept the first of the best.
spec fn took_in(
    before: AnchorSearch,
    after: AnchorSearch,
    candidates: Seq<AnchorCandidate>,
) -> bool {
    &&& after.core_graphs == before.core_graphs + candidates.len()
    &&& after.klass_candidates - before.klass_candidates >= candidates.len()
    &&& after.best == best_of(before.best, candidates)
}

proof fn took_in_joined(
    before: AnchorSearch,
    between: AnchorSearch,
    after: AnchorSearch,
    a: Seq<AnchorCandidate>,
    b: Seq<AnchorCandidate>,
)
    requires
        took_in(before, between, a),
        took_in(between, after, b),
    ensures
        took_in(before, after, a + b),
{
    best_of_joined(before.best, a, b);
}

proof fn offset_is_taken_in(
    memory: Contents,
    jvm_base: u64,
    jvm_end: u64,
    symbol: u64,
    location: u64,
    name_offset: u64,
    search: AnchorSearch,
)
    ensures
        took_in(
            search,
            offset_tried(memory, jvm_base, jvm_end, symbol, location, name_offset, search),
            match candidate_at(memory, jvm_base, jvm_end, symbol, location, name_offset) {
                None => Seq::empty(),
                Some(candidate) => seq![candidate],
            },
        ),
{
    reveal(offset_tried);
    reveal(candidate_at);
    if let Some(candidate) = candidate_at(
        memory,
        jvm_base,
        jvm_end,
        symbol,
        location,
        name_offset,
    ) {
        assert(seq![candidate].drop_last() =~= Seq::empty());
        assert(best_of(search.best, seq![candidate].drop_last()) == search.best);
    }
}

proof fn offsets_are_taken_in(
    memory: Contents,
    jvm_base: u64,
    jvm_end: u64,
    symbol: u64,
    location: u64,
    name_offset: u64,
    search: AnchorSearch,
)
    ensures
        took_in(
            search,
            offsets_tried(memory, jvm_base, jvm_end, symbol, location, name_offset, search),
            candidates_at(memory, jvm_base, jvm_end, symbol, location, name_offset),
        ),
    decreases 0x88 - name_offset,
{
    if name_offset <= 0x80 {
        let next = (name_offset + 8) as u64;
        let between = offset_tried(
            memory,
            jvm_base,
            jvm_end,
            symbol,
            location,
            name_offset,
            search,
        );
        offset_is_taken_in(memory, jvm_base, jvm_end, symbol, location, name_offset, search);
        offsets_are_taken_in(memory, jvm_base, jvm_end, symbol, location, next, between);
        took_in_joined(
            search,
            between,
            offsets_tried(memory, jvm_base, jvm_end, symbol, location, next, between),
            match candidate_at(memory, jvm_base, jvm_end, symbol, location, name_offset) {
                None => Seq::empty(),
                Some(candidate) => seq![candidate],
            },
            candidates_at(memory, jvm_base, jvm_end, symbol, location, next),
        );
    }
}

proof fn locations_are_taken_in(
    memory: Contents,
    jvm_base: u64,
    jvm_end: u64,
    symbol: u64,
    locations: Seq<u64>,
    count: nat,
    search: AnchorSearch,
)
    ensures
        took_in(
            search,
            locations_tried(memory, jvm_base, jvm_end, symbol, locations, count, search),
            candidates_to(memory, jvm_base, jvm_end, symbol, locations, count),
        ),
    decreases count,
{
    if count > 0 {
        let last = (count - 1) as nat;
        let between = locations_tried(memory, jvm_base, jvm_end, symbol, locations, last, search);
        locations_are_taken_in(memory, jvm_base, jvm_end, symbol, locations, last, search);
        offsets_are_taken_in(memory, jvm_base, jvm_end, symbol, locations[last as int], 8, between);
        took_in_joined(
            search,
            between,
            offsets_tried(memory, jvm_base, jvm_end, symbol, locations[last as int], 8, between),
            candidates_to(memory, jvm_base, jvm_end, symbol, locations, last),
            candidates_at(memory, jvm_base, jvm_end, symbol, locations[last as int], 8),
        );
    }
}

proof fn symbols_are_taken_in(
    memory: Contents,
    regions: Seq<MemoryRegion>,
    jvm_base: u64,
    jvm_end: u64,
    symbols: Seq<u64>,
    count: nat,
)
    ensures
        took_in(
            AnchorSearch { best: None, klass_candidates: 0, core_graphs: 0 },
            symbols_tried(memory, regions, jvm_base, jvm_end, symbols, count),
            candidates_of(memory, regions, jvm_base, jvm_end, symbols, count),
        ),
    decreases count,
{
    let start = AnchorSearch { best: None, klass_candidates: 0, core_graphs: 0 };
    if count > 0 {
        let last = (count - 1) as nat;
        let symbol = symbols[last as int];
        let locations = words_found(memory, regions, symbol, MAX_POINTER_HITS as nat);
        let between = symbols_tried(memory, regions, jvm_base, jvm_end, symbols, last);
        symbols_are_taken_in(memory, regions, jvm_base, jvm_end, symbols, last);
        locations_are_taken_in(
            memory,
            jvm_base,
            jvm_end,
            symbol,
            locations,
            locations.len(),
            between,
        );
        took_in_joined(
            start,
            between,
            symbols_tried(memory, regions, jvm_base, jvm_end, symbols, count),
            candidates_of(memory, regions, jvm_base, jvm_end, symbols, last),
            candidates_to(memory, jvm_base, jvm_end, symbol, locations, locations.len()),
        );
    }
}

/// Whether the `index`-th candidate has the highest score, and none before it has.
pub open spec fn is_first_best(candidates: Seq<AnchorCandidate>, index: int) -> bool {
    &&& 0 <= index < candidates.len()
    &&& forall|i: int|
        0 <= i < candidates.len() ==> (#[trigger] candidates[i]).score <= candidates[index].score
    &&& forall|i: int|
        0 <= i < index ==> (#[trigger] candidates[i]).score < candidates[index].score
}

proof fn best_of_all_is_first_best(candidates: Seq<AnchorCandidate>) -> (index: int)
    ensures
        match best_of(None, candidates) {
            None => candidates.len() == 0,
            Some(best) => is_first_best(candidates, index) && candidates[index] == best,
        },
    decreases candidates.len(),
{
    if candidates.len() == 0 {
        0
    } else {
        let start = candidates.drop_last();
        let before = best_of_all_is_first_best(start);
        let last = candidates.len() - 1;
        assert forall|i: int| 0 <= i < last implies #[trigger] candidates[i] == start[i] by {}
        if best_of(None, candidates) == best_of(None, start) && start.len() > 0 {
            before
        } else {
            last
        }
    }
}

/// The graphs that the search counts are the candidates, and it counts no fewer classes than graphs.
/// It finds an anchor if there is a candidate, and the anchor is the first of the highest score.
pub proof fn search_takes_the_first_best_candidate(
    memory: Contents,
    regions: Seq<MemoryRegion>,
    symbols: Seq<u64>,
    jvm_base: u64,
    jvm_end: u64,
)
    ensures
        ({
            let search = symbols_tried(
                memory,
                regions,
                jvm_base,
                jvm_end,
                symbols,
                symbols.len(),
            );
            let candidates = candidates_of(
                memory,
                regions,
                jvm_base,
                jvm_end,
                symbols,
                symbols.len(),
            );
            &&& search.core_graphs == candidates.len()
            &&& search.core_graphs <= search.klass_candidates
            &&& match anchor_of(memory, regions, symbols, jvm_base, jvm_end) {
                Err(_) => candidates.len() == 0,
                Ok(best) => exists|index: int| #[trigger]
                    is_first_best(candidates, index) && candidates[index] == best,
            }
        }),
{
    symbols_are_taken_in(memory, regions, jvm_base, jvm_end, symbols, symbols.len());
    let candidates = candidates_of(memory, regions, jvm_base, jvm_end, symbols, symbols.len());
    let index = best_of_all_is_first_best(candidates);
    if candidates.len() > 0 {
        assert(is_first_best(candidates, index));
    }
}

/// What is found by shape was validated. The symbol found is one of `java/lang/Object`; the classes
/// that every target has are among those found, derive from it, are of Java 8 and are the holders of
/// their pools.
pub proof fn found_structure_is_validated(
    memory: Contents,
    regions: Seq<MemoryRegion>,
    jvm_base: u64,
    jvm_size: nat,
)
    ensures
        structure_of(memory, regions, jvm_base, jvm_size) matches Ok(found) ==> {
            &&& is_symbol(memory, found.object_symbol, Some(encode_utf8(OBJECT_NAME@)))
            &&& are_distinct(found.classes)
            &&& class_named(found.classes, "java/lang/Object"@) matches Some(object)
            &&& forall|name: Seq<char>|
                name == "java/lang/String"@ || name == "java/lang/Class"@ || name
                    == "java/lang/System"@ ==> #[trigger] anchor_check(
                    memory,
                    found.classes,
                    found.core,
                    object.klass,
                    name,
                ) is Ok
        },
{
    if let Ok(found) = structure_of(memory, regions, jvm_base, jvm_size) {
        let name = encode_utf8(OBJECT_NAME@);
        let jvm_end = (jvm_base + jvm_size) as u64;
        let symbols = symbols_found(memory, regions, name, MAX_ANCHOR_HITS as nat)->Ok_0;
        scan_finds_the_symbols(memory, regions, name, MAX_ANCHOR_HITS as nat);
        anchor_is_the_best_candidate(memory, regions, symbols, jvm_base, jvm_end);
        let s = choose|s: int| 0 <= s < symbols.len() && symbols[s] == found.object_symbol;
        assert(is_symbol(memory, symbols[s], Some(name)));
        enumerated_classes_are_those_of_the_pools(
            memory,
            regions,
            found.constant_pool_vtable,
            found.core,
            jvm_base,
            jvm_end,
        );
    }
}

} // verus!
