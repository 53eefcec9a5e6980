//! How a search ends, and where its results go.
use crate::error::Error;
use crate::events::{
    conclude, finish, handle_event, react, receive_hit, ClosestKeeper, Handled, Reaction,
    SearchEvent, SearchQueues,
};
use crate::output::{
    appends, closest_file_name, closest_output_path, worker_count, OutFmt,
};
use crate::search::HitRecord;
use vstd::prelude::*;

verus! {

use crate::events::{first_error, improvements, kept, waited};
use crate::output::{
    directory_of, dot_up_to, file_name_of, last_step, only_slash_separates,
    plain_path, settled, slash_up_to, stem_of,
};

/// A worker's end is what the search comes to: its hit or its error. Where every
/// worker is gone without one, there is no hit and no error.
pub proof fn law_end_decides(
    end: Option<Result<HitRecord, Error>>,
    r: Result<Option<HitRecord>, Error>,
)
    requires
        call_ensures(conclude, (end,), r),
    ensures
        match r {
            Ok(None) => end is None,
            Ok(Some(hit)) => end == Some(Ok::<HitRecord, Error>(hit)),
            Err(e) => end == Some(Err::<HitRecord, Error>(e)),
        },
{
}

/// Only an improvement is kept, only a worker's end or the absence of workers
/// ends the wait, and each end is reported as it came.
pub proof fn law_events_are_answered(event: SearchEvent, r: Reaction)
    requires
        call_ensures(react, (event,), r),
    ensures
        event is Improved <==> r is Save,
        event is ImprovementsGone <==> r is WaitForEnd,
        event matches SearchEvent::Ended(Ok(hit)) ==> r == Reaction::Finish(Ok(Some(hit))),
        event matches SearchEvent::Ended(Err(e)) ==> r == Reaction::Finish(Err(e)),
        event is AllGone ==> r == Reaction::Finish(Ok(None)),
{
}

/// The closest candidate is kept when it improved and at no other event. Failing
/// to keep it ends the search with that error.
pub proof fn law_closest_is_kept_when_improved<K: ClosestKeeper>(event: SearchEvent)
    ensures
        forall|keeper: &mut K, r: Handled| #[trigger]
            call_ensures(handle_event::<K>, (event, keeper), r) ==> {
                &&& !(event is Improved) ==> *final(keeper) == *keeper && !(r is GoOn)
                &&& event is Improved ==> exists|saved: Result<(), Error>| #[trigger]
                    K::saves(*keeper, *final(keeper), saved) && (saved is Ok ==> r is GoOn) && (
                    saved matches Err(e) ==> r == Handled::Done(Err(e)))
                &&& event matches SearchEvent::Ended(Ok(hit)) ==> r == Handled::Done(Ok(Some(hit)))
                &&& event matches SearchEvent::Ended(Err(e)) ==> r == Handled::Done(Err(e))
                &&& event is AllGone ==> r == Handled::Done(Ok(None))
                &&& event is ImprovementsGone ==> r is WaitForEnd
            },
{
}

/// What the wait for the end gives is what a worker sent: a hit is the hit of the
/// last event, or of the end that was waited for once nobody was left to improve.
/// Every improvement before it was kept.
pub proof fn law_wait_gives_what_was_sent(
    events: Seq<SearchEvent>,
    ends: Seq<Option<Result<HitRecord, Error>>>,
    saves: Seq<Result<(), Error>>,
    r: Result<Option<HitRecord>, Error>,
)
    requires
        waited(events, ends, saves, r),
    ensures
        events.len() > 0,
        r matches Ok(Some(hit)) ==> events.last() == SearchEvent::Ended(Ok(hit)) || (events.last()
            is ImprovementsGone && ends == seq![Some(Ok::<HitRecord, Error>(hit))]),
        r == Ok::<Option<HitRecord>, Error>(None) ==> events.last() is AllGone || (events.last()
            is ImprovementsGone && ends == seq![None::<Result<HitRecord, Error>>]),
        events.last() matches SearchEvent::Ended(Err(e)) ==> r == Err::<Option<HitRecord>, Error>(
            e,
        ),
        forall|i: int|
            0 <= i < events.len() - 1 ==> (#[trigger] events[i]) is Improved,
        r is Ok ==> saves.len() == events.len() - 1 && forall|i: int|
            0 <= i < saves.len() ==> (#[trigger] saves[i]) is Ok,
{
    lemma_improvements(events.drop_last());
    if ends.len() == 1 {
        assert(ends =~= seq![ends[0]]);
    }
    if r is Ok {
        assert forall|i: int| 0 <= i < saves.len() implies (#[trigger] saves[i]) is Ok by {
            if i == saves.len() - 1 {
                assert(saves.last() is Ok);
            }
        }
    }
}

/// A row of improvements has as many as it is long.
proof fn lemma_improvements(events: Seq<SearchEvent>)
    requires
        forall|i: int| 0 <= i < events.len() ==> (#[trigger] events[i]) is Improved,
    ensures
        improvements(events) == events.len(),
    decreases events.len(),
{
    if events.len() > 0 {
        lemma_improvements(events.drop_last());
        assert(events.last() == events[events.len() - 1]);
    }
}

/// A hit is received only where a worker sent it, whatever the wait had seen
/// before.
pub proof fn law_received_hit_was_sent<'a, K: ClosestKeeper>(hit: HitRecord)
    ensures
        forall|
            queues: &mut SearchQueues<'a>,
            keeper: &mut K,
            r: Result<Option<HitRecord>, Error>,
        | #[trigger]
            call_ensures(receive_hit::<K>, (queues, keeper), r) && r == Ok::<
                Option<HitRecord>,
                Error,
            >(Some(hit)) ==> final(queues).seen().last() == SearchEvent::Ended(Ok(hit))
                || final(queues).ends().last() == Some(Ok::<HitRecord, Error>(hit)),
{
    assert forall|
        queues: &mut SearchQueues<'a>,
        keeper: &mut K,
        r: Result<Option<HitRecord>, Error>,
    | #[trigger]
        call_ensures(receive_hit::<K>, (queues, keeper), r) && r == Ok::<
            Option<HitRecord>,
            Error,
        >(Some(hit)) implies final(queues).seen().last() == SearchEvent::Ended(Ok(hit))
        || final(queues).ends().last() == Some(Ok::<HitRecord, Error>(hit)) by {
        let seen = final(queues).seen().skip(queues.seen().len() as int);
        let ends = final(queues).ends().skip(queues.ends().len() as int);
        let saves = choose|saves: Seq<Result<(), Error>>| #[trigger]
            kept(*keeper, saves, *final(keeper)) && waited(seen, ends, saves, r);
        law_wait_gives_what_was_sent(seen, ends, saves, r);
        assert(seen.last() == final(queues).seen().last());
        if ends.len() > 0 {
            assert(ends.last() == final(queues).ends().last());
        }
    }
}

/// No error is hidden by a hit: the search succeeds only where nothing failed, and
/// then with what was received. An error is that of the received end, or else the
/// first among the later ends, or else that of what was done last.
pub proof fn law_no_error_is_hidden(
    received: Result<Option<HitRecord>, Error>,
    later: Vec<Result<HitRecord, Error>>,
    saved: Result<(), Error>,
    r: Result<Option<HitRecord>, Error>,
)
    requires
        call_ensures(finish, (received, later, saved), r),
    ensures
        r is Ok <==> received is Ok && saved is Ok && forall|i: int|
            0 <= i < later@.len() ==> (#[trigger] later@[i]) is Ok,
        r is Ok ==> r == received,
        received is Err ==> r == received,
        forall|i: int|
            received is Ok && 0 <= i < later@.len() && (#[trigger] later@[i]) is Err && (forall|
                j: int,
            |
                0 <= j < i ==> (#[trigger] later@[j]) is Ok) ==> r == Err::<
                Option<HitRecord>,
                Error,
            >(later@[i]->Err_0),
        received is Ok && (forall|i: int| 0 <= i < later@.len() ==> (#[trigger] later@[i]) is Ok)
            && saved is Err ==> r == Err::<Option<HitRecord>, Error>(saved->Err_0),
{
    lemma_first_error(later@);
    assert forall|i: int|
        received is Ok && 0 <= i < later@.len() && (#[trigger] later@[i]) is Err && (forall|j: int|
            0 <= j < i ==> (#[trigger] later@[j]) is Ok) implies first_error(later@) == Some(
        later@[i]->Err_0,
    ) by {}
}

/// The first error of a row, and that there is none where all went well.
proof fn lemma_first_error(ends: Seq<Result<HitRecord, Error>>)
    ensures
        first_error(ends) is None <==> forall|i: int|
            0 <= i < ends.len() ==> (#[trigger] ends[i]) is Ok,
        forall|i: int|
            0 <= i < ends.len() && (#[trigger] ends[i]) is Err && (forall|j: int|
                0 <= j < i ==> (#[trigger] ends[j]) is Ok) ==> first_error(ends) == Some(
                ends[i]->Err_0,
            ),
    decreases ends.len(),
{
    if ends.len() > 0 {
        let rest = ends.drop_first();
        lemma_first_error(rest);
        if ends[0] is Ok {
            if first_error(ends) is None {
                assert forall|i: int| 0 <= i < ends.len() implies (#[trigger] ends[i]) is Ok by {
                    if i > 0 {
                        assert(rest[i - 1] is Ok);
                    }
                }
            }
            if forall|i: int| 0 <= i < ends.len() ==> (#[trigger] ends[i]) is Ok {
                assert forall|i: int| 0 <= i < rest.len() implies (#[trigger] rest[i]) is Ok by {
                    assert(ends[i + 1] is Ok);
                }
            }
        }
        assert forall|i: int|
            0 <= i < ends.len() && (#[trigger] ends[i]) is Err && (forall|j: int|
                0 <= j < i ==> (#[trigger] ends[j]) is Ok) implies first_error(ends) == Some(
            ends[i]->Err_0,
        ) by {
            if i > 0 {
                assert(ends[0] is Ok);
                assert(rest[i - 1] == ends[i]);
                assert forall|j: int| 0 <= j < i - 1 implies (#[trigger] rest[j]) is Ok by {
                    assert(ends[j + 1] is Ok);
                }
            }
        }
    }
}

/// JSON lines are always added to a file; anything else only where that is asked
/// for.
pub proof fn law_json_is_added(append: bool, json: bool, text: bool)
    requires
        call_ensures(appends, (OutFmt::Json, append), json),
        call_ensures(appends, (OutFmt::Txt, append), text),
    ensures
        json,
        text == append,
{
}

/// One worker drives a GPU. On the CPU there are as many as were asked for, or
/// else as there are processors, and always one at least.
pub proof fn law_workers(on_gpu: bool, requested: Option<usize>, processors: usize, r: usize)
    requires
        call_ensures(worker_count, (on_gpu, requested, processors), r),
    ensures
        r >= 1,
        on_gpu ==> r == 1,
        !on_gpu && requested is Some && requested->0 > 0 ==> r == requested->0,
        !on_gpu && requested == Some(0usize) ==> r == 1,
        !on_gpu && requested is None && processors > 0 ==> r == processors,
{
}

/// The closest-candidate file is named after the output file, with an ending of
/// its own.
pub proof fn law_closest_file_name(stem: String, r: String, unnamed: String)
    requires
        call_ensures(closest_file_name, (Some(stem),), r),
        call_ensures(closest_file_name, (None::<String>,), unnamed),
    ensures
        r@ == stem@ + "-closest.json"@,
        unnamed@ == "closest-closest.json"@,
{
    reveal_strlit("closest");
    reveal_strlit("-closest.json");
    reveal_strlit("closest-closest.json");
    assert(unnamed@ =~= "closest-closest.json"@);
}

/// Whether a text has none of these characters.
pub open spec fn without(text: Seq<char>, c: char) -> bool {
    forall|i: int| 0 <= i < text.len() ==> #[trigger] text[i] != c
}

/// Where only a slash separates, the closest candidate of `directory/stem.ext`
/// goes to `directory/stem-closest.json`.
pub proof fn law_closest_file_is_next_to_the_output(
    out: &str,
    r: String,
    directory: Seq<char>,
    stem: Seq<char>,
    ext: Seq<char>,
)
    requires
        call_ensures(closest_output_path, (out,), r),
        only_slash_separates(),
        out@ == directory + seq!['/'] + stem + seq!['.'] + ext,
        directory.len() > 0,
        directory.last() != '/',
        directory.last() != '.',
        stem.len() > 0,
        without(stem, '/'),
        ext.len() > 0,
        without(ext, '/'),
        without(ext, '.'),
    ensures
        r@ == directory + seq!['/'] + stem + "-closest.json"@,
{
    let path = out@;
    let name = stem + seq!['.'] + ext;
    assert(path =~= directory + seq!['/'] + name);
    assert(without(name, '/'));
    assert(name.last() == ext.last());
    lemma_placed(directory, name);
    lemma_stem(stem, ext);
    assert(plain_path(path, true));
    assert(r@ =~= directory + seq!['/'] + stem + "-closest.json"@);
}

/// Where only a slash separates, the closest candidate of `stem.ext` goes to
/// `stem-closest.json`.
pub proof fn law_closest_file_of_a_name(
    out: &str,
    r: String,
    stem: Seq<char>,
    ext: Seq<char>,
)
    requires
        call_ensures(closest_output_path, (out,), r),
        only_slash_separates(),
        out@ == stem + seq!['.'] + ext,
        stem.len() > 0,
        without(stem, '/'),
        ext.len() > 0,
        without(ext, '/'),
        without(ext, '.'),
    ensures
        r@ == stem + "-closest.json"@,
{
    let name = out@;
    assert(without(name, '/'));
    assert(name.last() == ext.last());
    assert(settled(name) == name);
    lemma_no_slash(name, name.len());
    assert(last_step(name) =~= name);
    assert(name.len() >= 3);
    lemma_stem(stem, ext);
    assert(plain_path(name, true));
    assert(file_name_of(name) == Some(name));
    assert(directory_of(name) is None);
    assert(r@ =~= stem + "-closest.json"@);
}

/// Where only a slash separates, a name without an extension keeps all of it: the
/// closest candidate of `directory/name` goes to `directory/name-closest.json`.
pub proof fn law_closest_file_without_extension(
    out: &str,
    r: String,
    directory: Seq<char>,
    name: Seq<char>,
)
    requires
        call_ensures(closest_output_path, (out,), r),
        only_slash_separates(),
        out@ == directory + seq!['/'] + name,
        directory.len() > 0,
        directory.last() != '/',
        directory.last() != '.',
        name.len() > 0,
        without(name, '/'),
        without(name, '.'),
    ensures
        r@ == directory + seq!['/'] + name + "-closest.json"@,
{
    let path = out@;
    assert(name[name.len() - 1] != '.');
    assert(name[0] != '.');
    lemma_placed(directory, name);
    lemma_no_dot(name, (name.len() - 1) as nat);
    assert(stem_of(name) == name);
    assert(plain_path(path, true));
    assert(r@ =~= directory + seq!['/'] + name + "-closest.json"@);
}

/// A name without a dot has no extension.
proof fn lemma_no_dot(name: Seq<char>, at: nat)
    requires
        without(name, '.'),
        at < name.len(),
    ensures
        dot_up_to(name, at) == 0,
    decreases at,
{
    if at > 0 {
        assert(name[at as int] != '.');
        lemma_no_dot(name, (at - 1) as nat);
    }
}

/// A name without a slash has no step before it.
proof fn lemma_no_slash(name: Seq<char>, at: nat)
    requires
        without(name, '/'),
        at <= name.len(),
    ensures
        slash_up_to(name, at) == 0,
    decreases at,
{
    if at > 0 {
        assert(name[at - 1] != '/');
        lemma_no_slash(name, (at - 1) as nat);
    }
}

/// The last slash of a path stands before its name.
proof fn lemma_slash_before(path: Seq<char>, before: nat, at: nat)
    requires
        before < at <= path.len() || before + 1 == at <= path.len(),
        path[before as int] == '/',
        forall|i: int| before < i < path.len() ==> #[trigger] path[i] != '/',
    ensures
        slash_up_to(path, at) == before + 1,
    decreases at,
{
    if at > before + 1 {
        assert(path[at - 1] != '/');
        lemma_slash_before(path, before, (at - 1) as nat);
    }
}

/// The name and the directory of a path that is written out.
proof fn lemma_placed(directory: Seq<char>, name: Seq<char>)
    requires
        directory.len() > 0,
        directory.last() != '/',
        directory.last() != '.',
        name.len() > 0,
        without(name, '/'),
        name.last() != '.',
    ensures
        file_name_of(directory + seq!['/'] + name) == Some(name),
        directory_of(directory + seq!['/'] + name) == Some(directory),
{
    let path = directory + seq!['/'] + name;
    assert(path.last() == name.last());
    assert(name[name.len() - 1] != '/');
    assert(settled(path) == path);
    assert forall|i: int| directory.len() < i < path.len() implies #[trigger] path[i] != '/' by {
        assert(path[i] == name[i - directory.len() - 1]);
    }
    assert(path[directory.len() as int] == '/');
    lemma_slash_before(path, directory.len(), path.len());
    assert(path.skip(directory.len() as int + 1) =~= name);
    assert(path.take(directory.len() as int) =~= directory);
    assert(settled(directory) == directory);
}

/// What stands before the last dot of a name.
proof fn lemma_stem(stem: Seq<char>, ext: Seq<char>)
    requires
        stem.len() > 0,
        without(ext, '.'),
    ensures
        stem_of(stem + seq!['.'] + ext) == stem,
{
    let name = stem + seq!['.'] + ext;
    assert(name[stem.len() as int] == '.');
    lemma_dot(name, stem.len(), (name.len() - 1) as nat, ext);
    assert(name.take(stem.len() as int) =~= stem);
}

/// The last dot of a name stands before its extension.
proof fn lemma_dot(name: Seq<char>, dot: nat, at: nat, ext: Seq<char>)
    requires
        dot <= at < name.len(),
        name.len() == dot + 1 + ext.len(),
        name[dot as int] == '.',
        forall|i: int| dot < i < name.len() ==> #[trigger] name[i] == ext[i - dot - 1],
        without(ext, '.'),
    ensures
        dot_up_to(name, at) == dot,
    decreases at,
{
    if at > dot {
        assert(name[at as int] == ext[at - dot - 1]);
        lemma_dot(name, dot, (at - 1) as nat, ext);
    }
}

}
