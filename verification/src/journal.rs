//! The actions on the two files of a collection, in the one order in which
//! they are to be performed, and what a crash can leave of the files.

use crate::pager::Action;
use crate::pager::ActionView;
use crate::pager::Image;
use crate::pager::actions_view;
use crate::pager::perform;
use crate::pager::perform_all;
use crate::pager::recovered;
use crate::recovery::interrupted;
use crate::recovery::may_crash_to;
use vstd::prelude::*;

verus! {

/// One step to be taken on the file of documents or on the index.
pub enum FileAction {
    Heap(Action),
    Index(Action),
}

/// What a step does, with the bytes as sequences.
pub enum FileActionView {
    Heap(ActionView),
    Index(ActionView),
}

impl View for FileAction {
    type V = FileActionView;

    open spec fn view(&self) -> FileActionView {
        match self {
            FileAction::Heap(action) => FileActionView::Heap(action@),
            FileAction::Index(action) => FileActionView::Index(action@),
        }
    }
}

/// What a list of steps does.
pub open spec fn file_actions_view(actions: Seq<FileAction>) -> Seq<FileActionView> {
    Seq::new(actions.len(), |i: int| actions[i]@)
}

/// Both files, each with its log, as they are on storage.
#[verifier::ext_equal]
pub struct Images {
    pub heap: Image,
    pub index: Image,
}

/// The actions on the file of documents.
pub open spec fn on_heap(actions: Seq<ActionView>) -> Seq<FileActionView> {
    Seq::new(actions.len(), |i: int| FileActionView::Heap(actions[i]))
}

/// The actions on the index.
pub open spec fn on_index(actions: Seq<ActionView>) -> Seq<FileActionView> {
    Seq::new(actions.len(), |i: int| FileActionView::Index(actions[i]))
}

/// The files after a step.
pub open spec fn perform_step(images: Images, action: FileActionView) -> Images {
    match action {
        FileActionView::Heap(a) => Images { heap: perform(images.heap, a), index: images.index },
        FileActionView::Index(a) => Images { heap: images.heap, index: perform(images.index, a) },
    }
}

/// The files after several steps.
pub open spec fn perform_steps(images: Images, actions: Seq<FileActionView>) -> Images
    decreases actions.len(),
{
    if actions.len() == 0 {
        images
    } else {
        perform_step(perform_steps(images, actions.drop_last()), actions.last())
    }
}

/// `out` is what a crash may leave while a step is taken.
pub open spec fn step_interrupted(images: Images, action: FileActionView, out: Images) -> bool {
    match action {
        FileActionView::Heap(a) => {
            &&& interrupted(images.heap, a, out.heap)
            &&& out.index == images.index
        },
        FileActionView::Index(a) => {
            &&& interrupted(images.index, a, out.index)
            &&& out.heap == images.heap
        },
    }
}

/// `out` is what a crash may leave at some point while the steps are taken
/// one after the other.
pub open spec fn files_may_crash_to(
    images: Images,
    actions: Seq<FileActionView>,
    out: Images,
) -> bool {
    ||| out == perform_steps(images, actions)
    ||| exists|k: int|
        0 <= k < actions.len() && #[trigger] step_interrupted(
            perform_steps(images, actions.take(k)),
            actions[k],
            out,
        )
}

/// Two lists of steps, one after the other.
pub proof fn lemma_steps_add(images: Images, a: Seq<FileActionView>, b: Seq<FileActionView>)
    ensures
        perform_steps(images, a + b) == perform_steps(perform_steps(images, a), b),
    decreases b.len(),
{
    if b.len() == 0 {
        assert(a + b =~= a);
    } else {
        lemma_steps_add(images, a, b.drop_last());
        assert((a + b).drop_last() =~= a + b.drop_last());
    }
}

/// A crash during two lists of steps is a crash during one of them.
pub proof fn lemma_steps_crash_add(
    images: Images,
    a: Seq<FileActionView>,
    b: Seq<FileActionView>,
    out: Images,
)
    requires
        files_may_crash_to(images, a + b, out),
    ensures
        files_may_crash_to(images, a, out) || files_may_crash_to(
            perform_steps(images, a),
            b,
            out,
        ),
{
    let both = a + b;
    lemma_steps_add(images, a, b);
    if out != perform_steps(images, both) {
        let k = choose|k: int|
            0 <= k < both.len() && #[trigger] step_interrupted(
                perform_steps(images, both.take(k)),
                both[k],
                out,
            );
        if k < a.len() {
            assert(both.take(k) =~= a.take(k));
            assert(both[k] == a[k]);
        } else {
            let j = k - a.len();
            assert(both.take(k) =~= a + b.take(j));
            lemma_steps_add(images, a, b.take(j));
            assert(both[k] == b[j]);
            assert(step_interrupted(
                perform_steps(perform_steps(images, a), b.take(j)),
                b[j],
                out,
            ));
        }
    }
}

/// Steps on one file leave the other as it is.
pub proof fn lemma_steps_on_one(images: Images, actions: Seq<ActionView>)
    ensures
        perform_steps(images, on_heap(actions)) == (Images {
            heap: perform_all(images.heap, actions),
            index: images.index,
        }),
        perform_steps(images, on_index(actions)) == (Images {
            heap: images.heap,
            index: perform_all(images.index, actions),
        }),
    decreases actions.len(),
{
    if actions.len() > 0 {
        lemma_steps_on_one(images, actions.drop_last());
        assert(on_heap(actions).drop_last() =~= on_heap(actions.drop_last()));
        assert(on_index(actions).drop_last() =~= on_index(actions.drop_last()));
    }
}

/// A crash during steps on the file of documents.
pub proof fn lemma_crash_on_heap(images: Images, actions: Seq<ActionView>, out: Images)
    requires
        files_may_crash_to(images, on_heap(actions), out),
    ensures
        may_crash_to(images.heap, actions, out.heap),
        out.index == images.index,
{
    let steps = on_heap(actions);
    lemma_steps_on_one(images, actions);
    if out != perform_steps(images, steps) {
        let k = choose|k: int|
            0 <= k < steps.len() && #[trigger] step_interrupted(
                perform_steps(images, steps.take(k)),
                steps[k],
                out,
            );
        assert(steps.take(k) =~= on_heap(actions.take(k)));
        lemma_steps_on_one(images, actions.take(k));
        assert(interrupted(perform_all(images.heap, actions.take(k)), actions[k], out.heap));
    }
}

/// A crash during steps on the index.
pub proof fn lemma_crash_on_index(images: Images, actions: Seq<ActionView>, out: Images)
    requires
        files_may_crash_to(images, on_index(actions), out),
    ensures
        may_crash_to(images.index, actions, out.index),
        out.heap == images.heap,
{
    let steps = on_index(actions);
    lemma_steps_on_one(images, actions);
    if out != perform_steps(images, steps) {
        let k = choose|k: int|
            0 <= k < steps.len() && #[trigger] step_interrupted(
                perform_steps(images, steps.take(k)),
                steps[k],
                out,
            );
        assert(steps.take(k) =~= on_index(actions.take(k)));
        lemma_steps_on_one(images, actions.take(k));
        assert(interrupted(perform_all(images.index, actions.take(k)), actions[k], out.index));
    }
}

/// Whatever a crash leaves while the steps are taken, recovery finds one of
/// the pairs of files on the trail.
pub open spec fn covered(
    images: Images,
    actions: Seq<FileActionView>,
    trail: Seq<(Seq<u8>, Seq<u8>)>,
) -> bool {
    forall|out: Images| #[trigger]
        files_may_crash_to(images, actions, out) ==> trail.contains(
            (recovered(out.heap), recovered(out.index)),
        )
}

/// Each of several files of documents with the same index.
pub open spec fn with_index(files: Seq<Seq<u8>>, index: Seq<u8>) -> Seq<(Seq<u8>, Seq<u8>)> {
    Seq::new(files.len(), |i: int| (files[i], index))
}

/// The same file of documents with each of several indexes.
pub open spec fn with_heap(heap: Seq<u8>, files: Seq<Seq<u8>>) -> Seq<(Seq<u8>, Seq<u8>)> {
    Seq::new(files.len(), |i: int| (heap, files[i]))
}

/// Steps on the file of documents that leave one of the files of `history`
/// lengthen the trail by those files.
pub proof fn lemma_heap_covered(
    images: Images,
    steps: Seq<FileActionView>,
    trail: Seq<(Seq<u8>, Seq<u8>)>,
    actions: Seq<ActionView>,
    history: Seq<Seq<u8>>,
)
    requires
        covered(images, steps, trail),
        trail.len() > 0,
        history.len() > 0,
        ({
            let files = perform_steps(images, steps);
            &&& trail.last() == (recovered(files.heap), recovered(files.index))
            &&& history[0] == recovered(files.heap)
            &&& forall|out: Image| #[trigger]
                may_crash_to(files.heap, actions, out) ==> history.contains(recovered(out))
        }),
    ensures
        covered(
            images,
            steps + on_heap(actions),
            trail + with_index(
                history.skip(1),
                recovered(perform_steps(images, steps).index),
            ),
        ),
{
    let files = perform_steps(images, steps);
    let longer = trail + with_index(history.skip(1), recovered(files.index));
    assert forall|out: Images| #[trigger]
        files_may_crash_to(images, steps + on_heap(actions), out) implies longer.contains(
        (recovered(out.heap), recovered(out.index)),
    ) by {
        let pair = (recovered(out.heap), recovered(out.index));
        lemma_steps_crash_add(images, steps, on_heap(actions), out);
        if files_may_crash_to(images, steps, out) {
            let i = choose|i: int| 0 <= i < trail.len() && trail[i] == pair;
            assert(longer[i] == pair);
        } else {
            lemma_crash_on_heap(files, actions, out);
            let i = choose|i: int| 0 <= i < history.len() && history[i] == recovered(out.heap);
            assert(longer[trail.len() - 1 + i] == pair);
        }
    }
}

/// Steps on the index that leave one of the files of `history` lengthen the
/// trail by those files.
pub proof fn lemma_index_covered(
    images: Images,
    steps: Seq<FileActionView>,
    trail: Seq<(Seq<u8>, Seq<u8>)>,
    actions: Seq<ActionView>,
    history: Seq<Seq<u8>>,
)
    requires
        covered(images, steps, trail),
        trail.len() > 0,
        history.len() > 0,
        ({
            let files = perform_steps(images, steps);
            &&& trail.last() == (recovered(files.heap), recovered(files.index))
            &&& history[0] == recovered(files.index)
            &&& forall|out: Image| #[trigger]
                may_crash_to(files.index, actions, out) ==> history.contains(recovered(out))
        }),
    ensures
        covered(
            images,
            steps + on_index(actions),
            trail + with_heap(recovered(perform_steps(images, steps).heap), history.skip(1)),
        ),
{
    let files = perform_steps(images, steps);
    let longer = trail + with_heap(recovered(files.heap), history.skip(1));
    assert forall|out: Images| #[trigger]
        files_may_crash_to(images, steps + on_index(actions), out) implies longer.contains(
        (recovered(out.heap), recovered(out.index)),
    ) by {
        let pair = (recovered(out.heap), recovered(out.index));
        lemma_steps_crash_add(images, steps, on_index(actions), out);
        if files_may_crash_to(images, steps, out) {
            let i = choose|i: int| 0 <= i < trail.len() && trail[i] == pair;
            assert(longer[i] == pair);
        } else {
            lemma_crash_on_index(files, actions, out);
            let i = choose|i: int| 0 <= i < history.len() && history[i] == recovered(out.index);
            assert(longer[trail.len() - 1 + i] == pair);
        }
    }
}

/// Lists of actions are what each of them is, place by place.
pub proof fn law_listed_actions(actions: Seq<Action>, steps: Seq<FileAction>, i: int)
    ensures
        actions_view(actions).len() == actions.len(),
        0 <= i < actions.len() ==> actions_view(actions)[i] == actions[i]@,
        file_actions_view(steps).len() == steps.len(),
        0 <= i < steps.len() ==> file_actions_view(steps)[i] == match steps[i] {
            FileAction::Heap(action) => FileActionView::Heap(action@),
            FileAction::Index(action) => FileActionView::Index(action@),
        },
{
}

} // verus!
