//! What the list of detected servers says of the rows it was made from.
use crate::model_detect::{fresh_model, is_listed, position, with_apps, with_processes, App, Model};
use vstd::prelude::*;

verus! {

/// A row of the table of compute processes tells of an inference server. Where no
/// command line could be read of the process, its name stands for it.
pub open spec fn counts(
    row: (App, Option<Seq<char>>),
    own_pid: u32,
    dirs: Seq<Seq<char>>,
) -> bool {
    is_listed(
        row.0.pid,
        row.0.process_name,
        if row.1 is Some {
            row.1->0
        } else {
            row.0.process_name
        },
        own_pid,
        dirs,
    )
}

/// The memory in those of the first `n` rows that tell of an inference server with
/// the id `pid`.
pub open spec fn memory_in(
    apps: Seq<(App, Option<Seq<char>>)>,
    n: int,
    pid: u32,
    own_pid: u32,
    dirs: Seq<Seq<char>>,
) -> int
    decreases n,
{
    if n <= 0 {
        0
    } else {
        memory_in(apps, n - 1, pid, own_pid, dirs) + if apps[n - 1].0.pid == pid && counts(
            apps[n - 1],
            own_pid,
            dirs,
        ) {
            apps[n - 1].0.mem_used_mb as int
        } else {
            0
        }
    }
}

/// The memory in all of the first `n` rows with the id `pid`.
pub open spec fn memory_of_rows(apps: Seq<(App, Option<Seq<char>>)>, n: int, pid: u32) -> int
    decreases n,
{
    if n <= 0 {
        0
    } else if apps[n - 1].0.pid == pid {
        memory_of_rows(apps, n - 1, pid) + apps[n - 1].0.mem_used_mb
    } else {
        memory_of_rows(apps, n - 1, pid)
    }
}

/// The model stands for the rows with its id among the first `n`.
spec fn stands_for(
    m: Model,
    apps: Seq<(App, Option<Seq<char>>)>,
    n: int,
    own_pid: u32,
    dirs: Seq<Seq<char>>,
) -> bool {
    let sum = memory_in(apps, n, m.pid, own_pid, dirs);
    &&& m.mem_used_mb == if sum > u64::MAX {
        u64::MAX as int
    } else {
        sum
    }
    &&& forall|g: u32| #[trigger]
        m.gpu_indices.contains(g) <==> has_card(apps, n, m.pid, g, own_pid, dirs)
}

/// One of the first `n` rows puts the server with the id `pid` on the card `g`.
pub open spec fn has_card(
    apps: Seq<(App, Option<Seq<char>>)>,
    n: int,
    pid: u32,
    g: u32,
    own_pid: u32,
    dirs: Seq<Seq<char>>,
) -> bool {
    exists|k: int|
        0 <= k < n && (#[trigger] apps[k]).0.pid == pid && apps[k].0.gpu_index == g && counts(
            apps[k],
            own_pid,
            dirs,
        )
}

/// One of the first `n` rows tells of the server with the id `pid`.
pub open spec fn has_row(
    apps: Seq<(App, Option<Seq<char>>)>,
    n: int,
    pid: u32,
    own_pid: u32,
    dirs: Seq<Seq<char>>,
) -> bool {
    exists|k: int| 0 <= k < n && (#[trigger] apps[k]).0.pid == pid && counts(apps[k], own_pid, dirs)
}

/// A list holds the process with the id `pid`.
pub open spec fn holds(models: Seq<Model>, pid: u32) -> bool {
    exists|i: int| 0 <= i < models.len() && (#[trigger] models[i]).pid == pid
}

proof fn lemma_position(models: Seq<Model>, pid: u32)
    ensures
        0 <= position(models, pid) <= models.len(),
        position(models, pid) < models.len() ==> models[position(models, pid)].pid == pid,
        forall|i: int| 0 <= i < position(models, pid) ==> models[i].pid != pid,
    decreases models.len(),
{
    if models.len() > 0 {
        let head = models.drop_last();
        lemma_position(head, pid);
        assert forall|i: int| 0 <= i < position(models, pid) implies models[i].pid != pid by {
            if i < head.len() {
                assert(head[i] == models[i]);
            }
        }
    }
}

proof fn lemma_no_rows(
    apps: Seq<(App, Option<Seq<char>>)>,
    n: int,
    pid: u32,
    own_pid: u32,
    dirs: Seq<Seq<char>>,
)
    ensures
        !has_row(apps, n, pid, own_pid, dirs) ==> memory_in(apps, n, pid, own_pid, dirs) == 0,
        memory_in(apps, n, pid, own_pid, dirs) >= 0,
    decreases n,
{
    if n > 0 {
        lemma_no_rows(apps, n - 1, pid, own_pid, dirs);
        if has_row(apps, n - 1, pid, own_pid, dirs) {
            let k = choose|k: int|
                0 <= k < n - 1 && (#[trigger] apps[k]).0.pid == pid && counts(
                    apps[k],
                    own_pid,
                    dirs,
                );
            assert(apps[k].0.pid == pid);
        }
        if apps[n - 1].0.pid == pid && counts(apps[n - 1], own_pid, dirs) {
            assert(has_row(apps, n, pid, own_pid, dirs));
        }
    }
}

/// What holds of the rows with some id before a row of another, or one that does
/// not count, holds after it.
proof fn lemma_row_passes(
    apps: Seq<(App, Option<Seq<char>>)>,
    n: int,
    pid: u32,
    own_pid: u32,
    dirs: Seq<Seq<char>>,
)
    requires
        n > 0,
        apps[n - 1].0.pid != pid || !counts(apps[n - 1], own_pid, dirs),
    ensures
        memory_in(apps, n, pid, own_pid, dirs) == memory_in(apps, n - 1, pid, own_pid, dirs),
        has_row(apps, n, pid, own_pid, dirs) == has_row(apps, n - 1, pid, own_pid, dirs),
        forall|g: u32|
            has_card(apps, n, pid, g, own_pid, dirs) == has_card(
                apps,
                n - 1,
                pid,
                g,
                own_pid,
                dirs,
            ),
{
    if has_row(apps, n, pid, own_pid, dirs) {
        let k = choose|k: int|
            0 <= k < n && (#[trigger] apps[k]).0.pid == pid && counts(apps[k], own_pid, dirs);
        assert(0 <= k < n - 1 && apps[k].0.pid == pid);
    }
    if has_row(apps, n - 1, pid, own_pid, dirs) {
        let k = choose|k: int|
            0 <= k < n - 1 && (#[trigger] apps[k]).0.pid == pid && counts(apps[k], own_pid, dirs);
        assert(0 <= k < n && apps[k].0.pid == pid);
    }
    assert forall|g: u32|
        has_card(apps, n, pid, g, own_pid, dirs) == has_card(apps, n - 1, pid, g, own_pid, dirs) by {
        if has_card(apps, n, pid, g, own_pid, dirs) {
            let k = choose|k: int|
                0 <= k < n && (#[trigger] apps[k]).0.pid == pid && apps[k].0.gpu_index == g
                    && counts(apps[k], own_pid, dirs);
            assert(0 <= k < n - 1 && apps[k].0.pid == pid);
        }
        if has_card(apps, n - 1, pid, g, own_pid, dirs) {
            let k = choose|k: int|
                0 <= k < n - 1 && (#[trigger] apps[k]).0.pid == pid && apps[k].0.gpu_index == g
                    && counts(apps[k], own_pid, dirs);
            assert(0 <= k < n && apps[k].0.pid == pid);
        }
    }
}

/// A row that counts adds its memory and its card.
proof fn lemma_row_adds(
    apps: Seq<(App, Option<Seq<char>>)>,
    n: int,
    own_pid: u32,
    dirs: Seq<Seq<char>>,
)
    requires
        n > 0,
        counts(apps[n - 1], own_pid, dirs),
    ensures
        ({
            let pid = apps[n - 1].0.pid;
            &&& memory_in(apps, n, pid, own_pid, dirs) == memory_in(
                apps,
                n - 1,
                pid,
                own_pid,
                dirs,
            ) + apps[n - 1].0.mem_used_mb
            &&& has_row(apps, n, pid, own_pid, dirs)
            &&& forall|g: u32|
                has_card(apps, n, pid, g, own_pid, dirs) == (g == apps[n - 1].0.gpu_index
                    || has_card(apps, n - 1, pid, g, own_pid, dirs))
        }),
{
    let pid = apps[n - 1].0.pid;
    assert forall|g: u32|
        has_card(apps, n, pid, g, own_pid, dirs) == (g == apps[n - 1].0.gpu_index || has_card(
            apps,
            n - 1,
            pid,
            g,
            own_pid,
            dirs,
        )) by {
        if has_card(apps, n, pid, g, own_pid, dirs) {
            let k = choose|k: int|
                0 <= k < n && (#[trigger] apps[k]).0.pid == pid && apps[k].0.gpu_index == g
                    && counts(apps[k], own_pid, dirs);
            if k < n - 1 {
                assert(0 <= k < n - 1 && apps[k].0.pid == pid);
            }
        }
        if has_card(apps, n - 1, pid, g, own_pid, dirs) {
            let k = choose|k: int|
                0 <= k < n - 1 && (#[trigger] apps[k]).0.pid == pid && apps[k].0.gpu_index == g
                    && counts(apps[k], own_pid, dirs);
            assert(0 <= k < n && apps[k].0.pid == pid);
        }
    }
}

proof fn lemma_rows_listed(
    apps: Seq<(App, Option<Seq<char>>)>,
    n: int,
    own_pid: u32,
    dirs: Seq<Seq<char>>,
)
    ensures
        ({
            let models = with_apps(apps, n, own_pid, dirs);
            &&& forall|i: int, j: int|
                0 <= i < j < models.len() ==> models[i].pid != models[j].pid
            &&& forall|i: int|
                0 <= i < models.len() ==> stands_for(
                    #[trigger] models[i],
                    apps,
                    n,
                    own_pid,
                    dirs,
                )
            &&& forall|pid: u32| #[trigger]
                holds(models, pid) == has_row(apps, n, pid, own_pid, dirs)
        }),
    decreases n,
{
    let models = with_apps(apps, n, own_pid, dirs);
    if n <= 0 {
        assert(models =~= Seq::<Model>::empty());
    } else {
        let before = with_apps(apps, n - 1, own_pid, dirs);
        let row = apps[n - 1];
        let pid = row.0.pid;
        lemma_rows_listed(apps, n - 1, own_pid, dirs);
        lemma_position(before, pid);
        let at = position(before, pid);
        if !counts(row, own_pid, dirs) {
            assert(models == before);
            assert forall|i: int| 0 <= i < models.len() implies stands_for(
                #[trigger] models[i],
                apps,
                n,
                own_pid,
                dirs,
            ) by {
                lemma_row_passes(apps, n, models[i].pid, own_pid, dirs);
                assert(stands_for(before[i], apps, n - 1, own_pid, dirs));
            }
            assert forall|p: u32| #[trigger]
                holds(models, p) == has_row(apps, n, p, own_pid, dirs) by {
                lemma_row_passes(apps, n, p, own_pid, dirs);
            }
        } else {
            lemma_row_adds(apps, n, own_pid, dirs);
            lemma_no_rows(apps, n - 1, pid, own_pid, dirs);
            let cmdline = if row.1 is Some {
                row.1->0
            } else {
                row.0.process_name
            };
            let base = if at < before.len() {
                before[at]
            } else {
                fresh_model(pid, row.0.process_name, cmdline)
            };
            let m = base.on_gpu(row.0.gpu_index, row.0.mem_used_mb);
            if at < before.len() {
                assert(models == before.update(at, m));
                assert(stands_for(before[at], apps, n - 1, own_pid, dirs));
            } else {
                assert(models == before.push(m));
                assert(!holds(before, pid));
                let p = n - 1;
                assert forall|g: u32| !#[trigger] has_card(apps, p, pid, g, own_pid, dirs) by {
                    if has_card(apps, n - 1, pid, g, own_pid, dirs) {
                        let k = choose|k: int|
                            0 <= k < n - 1 && (#[trigger] apps[k]).0.pid == pid
                                && apps[k].0.gpu_index == g && counts(apps[k], own_pid, dirs);
                        assert(0 <= k < n - 1 && apps[k].0.pid == pid);
                    }
                }
                assert(base.gpu_indices =~= Seq::<u32>::empty());
            }
            assert forall|g: u32| #[trigger]
                m.gpu_indices.contains(g) <==> has_card(apps, n, pid, g, own_pid, dirs) by {
                let old_cards = base.gpu_indices;
                if g == row.0.gpu_index && !old_cards.contains(g) {
                    assert(m.gpu_indices[old_cards.len() as int] == g);
                }
                if old_cards.contains(g) {
                    let k = choose|k: int| 0 <= k < old_cards.len() && old_cards[k] == g;
                    assert(m.gpu_indices[k] == g);
                }
                if m.gpu_indices.contains(g) {
                    let k = choose|k: int|
                        0 <= k < m.gpu_indices.len() && m.gpu_indices[k] == g;
                    if k < old_cards.len() {
                        assert(old_cards[k] == g);
                    }
                }
            }
            assert(stands_for(m, apps, n, own_pid, dirs));
            assert forall|i: int| 0 <= i < models.len() implies stands_for(
                #[trigger] models[i],
                apps,
                n,
                own_pid,
                dirs,
            ) by {
                if i != at {
                    assert(models[i] == before[i]);
                    assert(models[i].pid != pid);
                    lemma_row_passes(apps, n, models[i].pid, own_pid, dirs);
                    assert(stands_for(before[i], apps, n - 1, own_pid, dirs));
                } else {
                    assert(models[i] == m);
                }
            }
            assert forall|p: u32| #[trigger]
                holds(models, p) == has_row(apps, n, p, own_pid, dirs) by {
                assert(models[at] == m);
                if p != pid {
                    lemma_row_passes(apps, n, p, own_pid, dirs);
                    if holds(before, p) {
                        let i = choose|i: int|
                            0 <= i < before.len() && (#[trigger] before[i]).pid == p;
                        assert(models[i].pid == p);
                    }
                    if holds(models, p) {
                        let i = choose|i: int|
                            0 <= i < models.len() && (#[trigger] models[i]).pid == p;
                        assert(i != at);
                        assert(before[i].pid == p);
                    }
                } else {
                    assert(models[at].pid == p);
                }
            }
        }
    }
}

/// What the process table adds uses no memory of a card, and is in no row that
/// counts.
proof fn lemma_table_listed(
    apps: Seq<(App, Option<Seq<char>>)>,
    table: Seq<(u32, Seq<char>, Seq<char>)>,
    n: int,
    own_pid: u32,
    dirs: Seq<Seq<char>>,
)
    ensures
        ({
            let len = apps.len() as int;
            let models = with_processes(
                with_apps(apps, len, own_pid, dirs),
                table,
                n,
                own_pid,
                dirs,
            );
            &&& forall|i: int|
                0 <= i < models.len() ==> stands_for(
                    #[trigger] models[i],
                    apps,
                    len,
                    own_pid,
                    dirs,
                )
            &&& forall|pid: u32|
                has_row(apps, len, pid, own_pid, dirs) ==> #[trigger] holds(models, pid)
            &&& forall|k: int|
                0 <= k < n && is_listed(
                    (#[trigger] table[k]).0,
                    table[k].1,
                    table[k].2,
                    own_pid,
                    dirs,
                ) ==> holds(models, table[k].0)
        }),
    decreases n,
{
    let len = apps.len() as int;
    let found = with_apps(apps, len, own_pid, dirs);
    lemma_rows_listed(apps, len, own_pid, dirs);
    if n > 0 {
        let before = with_processes(found, table, n - 1, own_pid, dirs);
        let models = with_processes(found, table, n, own_pid, dirs);
        let (pid, name, cmdline) = table[n - 1];
        lemma_table_listed(apps, table, n - 1, own_pid, dirs);
        lemma_position(before, pid);
        let at = position(before, pid);
        if at < before.len() {
            assert(before[at].pid == pid);
            assert(holds(before, pid));
        } else {
            assert(!holds(before, pid));
            assert(!has_row(apps, len, pid, own_pid, dirs));
        }
        if models != before {
            let m = fresh_model(pid, name, cmdline);
            lemma_no_rows(apps, len, pid, own_pid, dirs);
            assert forall|g: u32| #[trigger]
                m.gpu_indices.contains(g) <==> has_card(apps, len, pid, g, own_pid, dirs) by {
                if has_card(apps, len, pid, g, own_pid, dirs) {
                    let k = choose|k: int|
                        0 <= k < len && (#[trigger] apps[k]).0.pid == pid && apps[k].0.gpu_index
                            == g && counts(apps[k], own_pid, dirs);
                    assert(0 <= k < len && apps[k].0.pid == pid);
                }
            }
            assert(stands_for(m, apps, len, own_pid, dirs));
            assert(models[before.len() as int] == m);
            assert forall|i: int| 0 <= i < models.len() implies stands_for(
                #[trigger] models[i],
                apps,
                len,
                own_pid,
                dirs,
            ) by {
                if i < before.len() {
                    assert(models[i] == before[i]);
                }
            }
            assert(holds(models, pid));
        }
        assert forall|p: u32| holds(before, p) implies #[trigger] holds(models, p) by {
            let i = choose|i: int| 0 <= i < before.len() && (#[trigger] before[i]).pid == p;
            assert(models[i].pid == p);
        }
    }
}

/// A listed server uses as much memory as all the compute rows with its id say
/// together, up to the largest `u64`, and is on just the cards that these rows name.
/// A row whose name and command line are those of no inference server is passed
/// over. Nothing that is to be listed is left out.
pub proof fn memory_adds_up_over_the_rows(
    apps: Seq<(App, Option<Seq<char>>)>,
    table: Seq<(u32, Seq<char>, Seq<char>)>,
    own_pid: u32,
    dirs: Seq<Seq<char>>,
)
    ensures
        ({
            let len = apps.len() as int;
            let models = with_processes(
                with_apps(apps, len, own_pid, dirs),
                table,
                table.len() as int,
                own_pid,
                dirs,
            );
            &&& forall|i: int|
                0 <= i < models.len() ==> {
                    let sum = memory_in(apps, len, (#[trigger] models[i]).pid, own_pid, dirs);
                    models[i].mem_used_mb == if sum > u64::MAX {
                        u64::MAX as int
                    } else {
                        sum
                    }
                }
            &&& forall|i: int, g: u32|
                0 <= i < models.len() ==> (#[trigger] models[i].gpu_indices.contains(g) <==> has_card(
                    apps,
                    len,
                    models[i].pid,
                    g,
                    own_pid,
                    dirs,
                ))
            &&& forall|k: int|
                0 <= k < len && counts(#[trigger] apps[k], own_pid, dirs) ==> holds(
                    models,
                    apps[k].0.pid,
                )
            &&& forall|k: int|
                0 <= k < table.len() && is_listed(
                    (#[trigger] table[k]).0,
                    table[k].1,
                    table[k].2,
                    own_pid,
                    dirs,
                ) ==> holds(models, table[k].0)
        }),
{
    let len = apps.len() as int;
    let models = with_processes(
        with_apps(apps, len, own_pid, dirs),
        table,
        table.len() as int,
        own_pid,
        dirs,
    );
    lemma_table_listed(apps, table, table.len() as int, own_pid, dirs);
    assert forall|i: int, g: u32| 0 <= i < models.len() implies (#[trigger] models[
        i
    ].gpu_indices.contains(g) <==> has_card(apps, len, models[i].pid, g, own_pid, dirs)) by {
        assert(stands_for(models[i], apps, len, own_pid, dirs));
    }
    assert forall|k: int| 0 <= k < len && counts(#[trigger] apps[k], own_pid, dirs) implies holds(
        models,
        apps[k].0.pid,
    ) by {
        assert(has_row(apps, len, apps[k].0.pid, own_pid, dirs));
    }
}

/// Where the rows of one process agree in its name and its command line, as those
/// that a table has for the cards of one process do, a listed server with a card
/// uses the sum of the memory of all its rows.
pub proof fn memory_of_one_process_is_the_sum_of_its_rows(
    apps: Seq<(App, Option<Seq<char>>)>,
    table: Seq<(u32, Seq<char>, Seq<char>)>,
    own_pid: u32,
    dirs: Seq<Seq<char>>,
    i: int,
)
    requires
        forall|j: int, k: int|
            0 <= j < apps.len() && 0 <= k < apps.len() && (#[trigger] apps[j]).0.pid == (
            #[trigger] apps[k]).0.pid ==> apps[j].0.process_name == apps[k].0.process_name
                && apps[j].1 == apps[k].1,
        0 <= i < with_processes(
            with_apps(apps, apps.len() as int, own_pid, dirs),
            table,
            table.len() as int,
            own_pid,
            dirs,
        ).len(),
    ensures
        ({
            let m = with_processes(
                with_apps(apps, apps.len() as int, own_pid, dirs),
                table,
                table.len() as int,
                own_pid,
                dirs,
            )[i];
            let sum = memory_of_rows(apps, apps.len() as int, m.pid);
            m.gpu_indices.len() > 0 ==> m.mem_used_mb == if sum > u64::MAX {
                u64::MAX as int
            } else {
                sum
            }
        }),
{
    let len = apps.len() as int;
    let models = with_processes(
        with_apps(apps, len, own_pid, dirs),
        table,
        table.len() as int,
        own_pid,
        dirs,
    );
    let m = models[i];
    memory_adds_up_over_the_rows(apps, table, own_pid, dirs);
    if m.gpu_indices.len() > 0 {
        let g = m.gpu_indices[0];
        assert(models[i].gpu_indices.contains(g));
        let k = choose|k: int|
            0 <= k < len && (#[trigger] apps[k]).0.pid == m.pid && apps[k].0.gpu_index == g
                && counts(apps[k], own_pid, dirs);
        lemma_all_rows_count(apps, len, k, own_pid, dirs);
    }
}

proof fn lemma_all_rows_count(
    apps: Seq<(App, Option<Seq<char>>)>,
    n: int,
    k: int,
    own_pid: u32,
    dirs: Seq<Seq<char>>,
)
    requires
        n <= apps.len(),
        0 <= k < apps.len(),
        counts(apps[k], own_pid, dirs),
        forall|j: int|
            0 <= j < apps.len() && (#[trigger] apps[j]).0.pid == apps[k].0.pid
                ==> apps[j].0.process_name == apps[k].0.process_name && apps[j].1 == apps[k].1,
    ensures
        memory_in(apps, n, apps[k].0.pid, own_pid, dirs) == memory_of_rows(
            apps,
            n,
            apps[k].0.pid,
        ),
    decreases n,
{
    if n > 0 {
        lemma_all_rows_count(apps, n - 1, k, own_pid, dirs);
    }
}

/// The model is what the first of the rows that count with its id tells, but for its
/// memory and its cards.
pub open spec fn told_by_row(
    m: Model,
    apps: Seq<(App, Option<Seq<char>>)>,
    n: int,
    own_pid: u32,
    dirs: Seq<Seq<char>>,
) -> bool {
    exists|k: int|
        0 <= k < n && (#[trigger] apps[k]).0.pid == m.pid && counts(apps[k], own_pid, dirs)
            && !has_row(apps, k, m.pid, own_pid, dirs) && m.process_name == apps[k].0.process_name
            && m.cmdline == (if apps[k].1 is Some {
            apps[k].1->0
        } else {
            apps[k].0.process_name
        }) && m.engine == crate::model_detect::engine(m.process_name, m.cmdline) && m.described
            == crate::model_detect::description(m.process_name, m.cmdline)
}

proof fn lemma_told(
    apps: Seq<(App, Option<Seq<char>>)>,
    n: int,
    own_pid: u32,
    dirs: Seq<Seq<char>>,
)
    requires
        0 <= n <= apps.len(),
    ensures
        ({
            let models = with_apps(apps, n, own_pid, dirs);
            &&& forall|i: int|
                0 <= i < models.len() ==> told_by_row(#[trigger] models[i], apps, n, own_pid, dirs)
            &&& n > 0 ==> with_apps(apps, n - 1, own_pid, dirs).len() <= models.len() && forall|
                i: int,
            |
                0 <= i < with_apps(apps, n - 1, own_pid, dirs).len() ==> (
                #[trigger] models[i]).pid == with_apps(apps, n - 1, own_pid, dirs)[i].pid
        }),
    decreases n,
{
    let models = with_apps(apps, n, own_pid, dirs);
    if n > 0 {
        let before = with_apps(apps, n - 1, own_pid, dirs);
        let row = apps[n - 1];
        lemma_told(apps, n - 1, own_pid, dirs);
        lemma_rows_listed(apps, n - 1, own_pid, dirs);
        lemma_position(before, row.0.pid);
        let at = position(before, row.0.pid);
        assert forall|i: int| 0 <= i < models.len() implies told_by_row(
            #[trigger] models[i],
            apps,
            n,
            own_pid,
            dirs,
        ) by {
            if i < before.len() {
                let m = before[i];
                assert(told_by_row(m, apps, n - 1, own_pid, dirs));
                let k = choose|k: int|
                    0 <= k < n - 1 && (#[trigger] apps[k]).0.pid == m.pid && counts(
                        apps[k],
                        own_pid,
                        dirs,
                    ) && !has_row(apps, k, m.pid, own_pid, dirs) && m.process_name
                        == apps[k].0.process_name && m.cmdline == (if apps[k].1 is Some {
                        apps[k].1->0
                    } else {
                        apps[k].0.process_name
                    }) && m.engine == crate::model_detect::engine(m.process_name, m.cmdline)
                        && m.described == crate::model_detect::description(
                        m.process_name,
                        m.cmdline,
                    );
                assert(models[i].pid == m.pid && models[i].process_name == m.process_name
                    && models[i].cmdline == m.cmdline && models[i].engine == m.engine
                    && models[i].described == m.described);
                assert(apps[k].0.pid == models[i].pid);
            } else {
                assert(!holds(before, row.0.pid));
                assert(!has_row(apps, n - 1, row.0.pid, own_pid, dirs));
                assert(apps[n - 1].0.pid == models[i].pid);
            }
        }
    }
}

/// A server that is found in the rows is what the first of its rows tells: its name, its
/// command line, and what that says. The servers are listed in the order in which they
/// were found: a further row moves none of them.
pub proof fn servers_are_listed_as_they_were_found(
    apps: Seq<(App, Option<Seq<char>>)>,
    n: int,
    own_pid: u32,
    dirs: Seq<Seq<char>>,
)
    requires
        0 < n <= apps.len(),
    ensures
        ({
            let before = with_apps(apps, n - 1, own_pid, dirs);
            let models = with_apps(apps, n, own_pid, dirs);
            &&& forall|i: int|
                0 <= i < models.len() ==> told_by_row(#[trigger] models[i], apps, n, own_pid, dirs)
            &&& before.len() <= models.len()
            &&& forall|i: int|
                0 <= i < before.len() ==> (#[trigger] models[i]).pid == before[i].pid
        }),
{
    lemma_told(apps, n, own_pid, dirs);
}

/// The process table adds servers behind those that were found, and changes none of them:
/// one that is listed already is passed over, and another is what its row tells, without
/// memory and without a card.
pub proof fn the_process_table_adds_the_rest(
    found: Seq<Model>,
    table: Seq<(u32, Seq<char>, Seq<char>)>,
    n: int,
    own_pid: u32,
    dirs: Seq<Seq<char>>,
)
    requires
        0 < n <= table.len(),
    ensures
        ({
            let before = with_processes(found, table, n - 1, own_pid, dirs);
            let after = with_processes(found, table, n, own_pid, dirs);
            let (pid, name, cmdline) = table[n - 1];
            if holds(before, pid) || !is_listed(pid, name, cmdline, own_pid, dirs) {
                after == before
            } else {
                &&& after.len() == before.len() + 1
                &&& forall|i: int| 0 <= i < before.len() ==> #[trigger] after[i] == before[i]
                &&& after.last().pid == pid
                &&& after.last().process_name == name
                &&& after.last().cmdline == cmdline
                &&& after.last().mem_used_mb == 0
                &&& after.last().gpu_indices.len() == 0
                &&& after.last().engine == crate::model_detect::engine(name, cmdline)
                &&& after.last().described == crate::model_detect::description(name, cmdline)
            }
        }),
        with_processes(found, table, 0, own_pid, dirs) == found,
{
    let before = with_processes(found, table, n - 1, own_pid, dirs);
    let pid = table[n - 1].0;
    lemma_position(before, pid);
    if position(before, pid) < before.len() {
        assert(before[position(before, pid)].pid == pid);
    }
}

/// A process is listed where its name or its command line, in lower case, names an
/// engine, or where its command line names a model; and never this dashboard, neither by
/// its id nor by its name on the command line.
pub proof fn servers_but_not_the_dashboard_are_listed(
    pid: u32,
    name: Seq<char>,
    cmdline: Seq<char>,
    own_pid: u32,
    dirs: Seq<Seq<char>>,
    word: Seq<char>,
)
    ensures
        is_listed(pid, name, cmdline, own_pid, dirs) ==> pid != own_pid
            && !crate::text::has_part(cmdline, "llm-visuals"@),
        pid != own_pid && !crate::text::has_part(cmdline, "llm-visuals"@) ==> {
            &&& crate::model_detect::names_model(cmdline, dirs) ==> is_listed(
                pid,
                name,
                cmdline,
                own_pid,
                dirs,
            )
            &&& crate::laws::command_line::known_words().contains(word) && (
            crate::text::has_part(crate::text::lowered(name), word) || crate::text::has_part(
                crate::text::lowered(cmdline),
                word,
            )) ==> is_listed(pid, name, cmdline, own_pid, dirs)
        },
        (forall|i: int|
            0 <= i < crate::laws::command_line::known_words().len() ==> !crate::text::has_part(
                crate::text::lowered(name),
                #[trigger] crate::laws::command_line::known_words()[i],
            ) && !crate::text::has_part(
                crate::text::lowered(cmdline),
                crate::laws::command_line::known_words()[i],
            )) && !crate::model_detect::names_model(cmdline, dirs) ==> !is_listed(
            pid,
            name,
            cmdline,
            own_pid,
            dirs,
        ),
{
    let p = crate::text::lowered(name);
    let c = crate::text::lowered(cmdline);
    let words = crate::laws::command_line::known_words();
    crate::laws::command_line::servers_are_known_by_their_words(p, c);
    if words.contains(word) && (crate::text::has_part(p, word) || crate::text::has_part(c, word)) {
        let i = choose|i: int| 0 <= i < words.len() && words[i] == word;
        assert(crate::text::has_part(p, words[i]) || crate::text::has_part(c, words[i]));
    }
}

} // verus!
