use vstd::prelude::*;

verus! {

/// Which rendered frame is shown at `position` of the display sequence: the
/// frames in order, then the same frames backwards.
pub open spec fn display_index_of(position: int, frame_count: int) -> int {
    if position < frame_count {
        position
    } else {
        2 * frame_count - 1 - position
    }
}

/// The display sequence of `frames`: forward, then in reverse.
pub open spec fn palindrome<T>(frames: Seq<T>) -> Seq<T> {
    frames + frames.reverse()
}

/// `viewports` is the chain of viewports of a zoom: it starts at `initial`, and
/// each next one is what `shrink` made of the one before.
pub open spec fn is_zoom_path<V, S: Fn(V) -> V>(shrink: S, initial: V, viewports: Seq<V>) -> bool {
    &&& viewports.len() > 0 ==> viewports[0] == initial
    &&& forall|i: int|
        0 <= i < viewports.len() - 1 ==> call_ensures(
            shrink,
            (#[trigger] viewports[i],),
            viewports[i + 1],
        )
}

/// `frames` holds, one for one, what `render` made of `viewports`.
pub open spec fn are_frames_of<V, R: Fn(V) -> Vec<u8>>(
    render: R,
    viewports: Seq<V>,
    frames: Seq<Vec<u8>>,
) -> bool {
    &&& frames.len() == viewports.len()
    &&& forall|i: int|
        0 <= i < viewports.len() ==> call_ensures(render, (viewports[i],), #[trigger] frames[i])
}

/// The display sequence is twice as long as the run of frames, and shows at
/// each place the frame that `display_index_of` names.
pub proof fn lemma_palindrome_index<T>(frames: Seq<T>, position: int)
    requires
        0 <= position < 2 * frames.len(),
    ensures
        palindrome(frames).len() == 2 * frames.len(),
        0 <= display_index_of(position, frames.len() as int) < frames.len(),
        palindrome(frames)[position] == frames[display_index_of(position, frames.len() as int)],
{
}

/// Where there is a frame at all, the display sequence turns on the last one:
/// it is shown at the end of the way in and again at the start of the way
/// out, and each other frame is shown once on either way.
pub proof fn lemma_palindrome_turn<T>(frames: Seq<T>)
    requires
        frames.len() >= 1,
    ensures
        palindrome(frames).len() == 2 * frames.len(),
        palindrome(frames)[frames.len() - 1] == frames.last(),
        palindrome(frames)[frames.len() as int] == frames.last(),
        forall|i: int|
            0 <= i < frames.len() ==> #[trigger] palindrome(frames)[i] == frames[i] && palindrome(
                frames,
            )[2 * frames.len() - 1 - i] == frames[i],
{
}

/// With no frames the display sequence is empty.
pub proof fn lemma_palindrome_of_nothing<T>(frames: Seq<T>)
    requires
        frames.len() == 0,
    ensures
        palindrome(frames) == Seq::<T>::empty(),
{
    assert(palindrome(frames) =~= Seq::<T>::empty());
}

/// What holds of the first viewport, and is kept by every step of `shrink`,
/// holds of the viewport of every frame; a center that one step leaves in
/// place stays in place throughout the zoom.
pub proof fn lemma_zoom_path_keeps<V, S: Fn(V) -> V>(
    shrink: S,
    initial: V,
    viewports: Seq<V>,
    kept: spec_fn(V) -> bool,
    i: int,
)
    requires
        is_zoom_path(shrink, initial, viewports),
        kept(initial),
        forall|before: V, after: V|
            kept(before) && #[trigger] call_ensures(shrink, (before,), after) ==> kept(after),
        0 <= i < viewports.len(),
    ensures
        kept(viewports[i]),
    decreases i,
{
    if i > 0 {
        lemma_zoom_path_keeps(shrink, initial, viewports, kept, i - 1);
        assert(call_ensures(shrink, (viewports[i - 1],), viewports[i - 1 + 1]));
    }
}

/// The index of the rendered frame that the display sequence shows at
/// `position`.
pub fn display_index(position: usize, frame_count: usize) -> (index: usize)
    requires
        position < 2 * frame_count,
    ensures
        index == display_index_of(position as int, frame_count as int),
        index < frame_count,
{
    if position < frame_count {
        position
    } else {
        frame_count - 1 - (position - frame_count)
    }
}

/// Lays the frames out for display: all of them in order, then all of them in
/// reverse order, so that the last frame is shown twice in a row at the turn.
pub fn display_order<T>(frames: &Vec<T>) -> (display: Vec<&T>)
    ensures
        display@.len() == 2 * frames@.len(),
        forall|i: int|
            0 <= i < display@.len() ==> *(#[trigger] display@[i]) == palindrome(frames@)[i],
{
    let count: usize = frames.len();
    let mut display: Vec<&T> = Vec::new();
    let mut forward: usize = 0;
    while forward < count
        invariant
            count == frames@.len(),
            forward <= count,
            display@.len() == forward,
            forall|i: int| 0 <= i < forward ==> *(#[trigger] display@[i]) == frames@[i],
        decreases count - forward,
    {
        display.push(&frames[forward]);
        forward += 1;
    }
    let mut backward: usize = count;
    while backward > 0
        invariant
            count == frames@.len(),
            backward <= count,
            display@.len() == count + (count - backward),
            forall|i: int|
                0 <= i < display@.len() ==> *(#[trigger] display@[i]) == frames@[display_index_of(
                    i,
                    count as int,
                )],
        decreases backward,
    {
        backward -= 1;
        display.push(&frames[backward]);
    }
    proof {
        assert forall|i: int| 0 <= i < display@.len() implies *(#[trigger] display@[i])
            == palindrome(frames@)[i] by {
            lemma_palindrome_index(frames@, i);
        }
    }
    display
}

/// Renders the frames of a zoom: the first from `initial`, each next one from
/// the viewport that `shrink` made of the one before.
pub fn zoom_frames<V: Copy, R: Fn(V) -> Vec<u8>, S: Fn(V) -> V>(
    frame_count: usize,
    initial: V,
    render: R,
    shrink: S,
) -> (frames: Vec<Vec<u8>>)
    requires
        forall|viewport: V| call_requires(render, (viewport,)),
        forall|viewport: V| call_requires(shrink, (viewport,)),
    ensures
        frames@.len() == frame_count,
        exists|viewports: Seq<V>|
            is_zoom_path(shrink, initial, viewports) && #[trigger] are_frames_of(
                render,
                viewports,
                frames@,
            ),
{
    let mut frames: Vec<Vec<u8>> = Vec::new();
    let mut viewport: V = initial;
    let ghost mut viewports: Seq<V> = Seq::empty();
    let mut index: usize = 0;
    while index < frame_count
        invariant
            index <= frame_count,
            frames@.len() == index,
            viewports.len() == index,
            forall|viewport: V| call_requires(render, (viewport,)),
            forall|viewport: V| call_requires(shrink, (viewport,)),
            is_zoom_path(shrink, initial, viewports.push(viewport)),
            are_frames_of(render, viewports, frames@),
        decreases frame_count - index,
    {
        let frame = render(viewport);
        frames.push(frame);
        let next = shrink(viewport);
        proof {
            viewports = viewports.push(viewport);
        }
        viewport = next;
        index += 1;
    }
    proof {
        assert(is_zoom_path(shrink, initial, viewports)) by {
            let longer = viewports.push(viewport);
            assert forall|i: int| 0 <= i < viewports.len() - 1 implies call_ensures(
                shrink,
                (#[trigger] viewports[i],),
                viewports[i + 1],
            ) by {
                assert(longer[i] == viewports[i]);
                assert(longer[i + 1] == viewports[i + 1]);
            }
            if viewports.len() > 0 {
                assert(longer[0] == viewports[0]);
            }
        }
    }
    frames
}

} // verus!
