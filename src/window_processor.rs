//! Fixed-size, possibly overlapping and downsampled windows taken from a
//! stream of arbitrarily sized input chunks.
use vstd::prelude::*;
use vstd::arithmetic::div_mod::lemma_fundamental_div_mod;
use vstd::arithmetic::div_mod::lemma_fundamental_div_mod_converse;
use vstd::arithmetic::div_mod::lemma_mod_pos_bound;
use vstd::arithmetic::div_mod::lemma_small_mod;

use crate::config::ConfigError;

verus! {

/// The samples of `input` that downsampling by `d` keeps: those at indices
/// `0, d, 2d, ...`.
pub open spec fn downsample<T>(input: Seq<T>, d: nat) -> Seq<T>
    decreases input.len(),
{
    if input.len() == 0 {
        Seq::empty()
    } else {
        let kept = downsample(input.drop_last(), d);
        if (input.len() - 1) as int % (d as int) == 0 {
            kept.push(input.last())
        } else {
            kept
        }
    }
}

/// How many windows of `w` samples, `h` samples apart, a stream of `n`
/// samples has completed.
pub open spec fn window_count(n: nat, w: nat, h: nat) -> nat {
    if n < w || h == 0 {
        0
    } else {
        ((n - w) as int / h as int + 1) as nat
    }
}

/// The windows of `w` samples, `h` samples apart, that the stream `s` has
/// completed, in order: window `k` holds `s[k * h .. k * h + w]`.
pub open spec fn windows_of<T>(s: Seq<T>, w: nat, h: nat) -> Seq<Seq<T>> {
    Seq::new(window_count(s.len(), w, h), |k: int| s.subrange(k * h, k * h + w))
}

/// How many of the latest stream samples the window buffer holds after `n`
/// samples: all of them until the first window, then the overlap with the
/// next window plus what has come since the last one.
pub open spec fn fill_level(n: nat, w: nat, h: nat) -> nat {
    if n < w || h == 0 {
        n
    } else {
        (w - h + (n - w) as int % h as int) as nat
    }
}

/// Receives each window that a [`WindowProcessor`] completes.
pub trait WindowHandler<T> {
    /// The windows received so far, in order.
    spec fn received(&self) -> Seq<Seq<T>>;

    /// What the handler keeps true of its own state between windows.
    spec fn inv(&self) -> bool;

    /// Receives one window.
    fn handle(&mut self, window: &[T])
        requires
            old(self).inv(),
        ensures
            final(self).inv(),
            final(self).received() == old(self).received().push(window@),
    ;
}

/// A handler that keeps a copy of every window it receives.
pub struct WindowRecorder<T> {
    pub windows: Vec<Vec<T>>,
}

impl<T: Copy> WindowRecorder<T> {
    /// Creates a recorder that has received nothing.
    pub fn new() -> (r: Self)
        ensures
            r.received().len() == 0,
    {
        WindowRecorder { windows: Vec::new() }
    }
}

impl<T: Copy> WindowHandler<T> for WindowRecorder<T> {
    open spec fn received(&self) -> Seq<Seq<T>> {
        self.windows@.map_values(|v: Vec<T>| v@)
    }

    open spec fn inv(&self) -> bool {
        true
    }

    fn handle(&mut self, window: &[T]) {
        let copy = vstd::slice::slice_to_vec(window);
        self.windows.push(copy);
        assert(self.windows@.map_values(|v: Vec<T>| v@) =~= old(self).windows@.map_values(|v: Vec<T>| v@).push(window@));
    }
}

/// A handler that keeps only the latest window it received, in a buffer
/// allocated once, and notes whether one arrived since the last
/// [`LatestWindow::take_pending`].
pub struct LatestWindow<T> {
    window: Vec<T>,
    pending: bool,
    log: Ghost<Seq<Seq<T>>>,
    taken: Ghost<nat>,
}

impl<T> LatestWindow<T> {
    /// The buffer holds the latest window received, and a window is pending
    /// exactly when more have been received than at the last take.
    pub closed spec fn wf(&self) -> bool {
        &&& self.log@.len() > 0 ==> self.window@ == self.log@.last()
        &&& self.pending <==> self.log@.len() > self.taken@
    }
}

impl<T: Copy> LatestWindow<T> {
    /// How many windows had been received at the last take.
    pub closed spec fn taken(&self) -> nat {
        self.taken@
    }

    /// Creates a handler whose buffer holds `window_size` copies of `initial`.
    pub fn new(window_size: usize, initial: T) -> (r: Self)
        ensures
            r.inv(),
            r.received().len() == 0,
            r.taken() == 0,
    {
        LatestWindow { window: vec![initial; window_size], pending: false, log: Ghost(Seq::empty()), taken: Ghost(0) }
    }

    /// Returns whether a window arrived since the last call, and forgets it.
    pub fn take_pending(&mut self) -> (r: bool)
        requires
            old(self).inv(),
        ensures
            final(self).inv(),
            r <==> old(self).received().len() > old(self).taken(),
            final(self).received() == old(self).received(),
            final(self).taken() == final(self).received().len(),
    {
        let r = self.pending;
        self.pending = false;
        self.taken = Ghost(self.log@.len());
        r
    }

    /// The latest window received.
    pub fn window(&self) -> (r: &[T])
        requires
            self.inv(),
            self.received().len() > 0,
        ensures
            r@ == self.received().last(),
    {
        self.window.as_slice()
    }
}

impl<T: Copy> WindowHandler<T> for LatestWindow<T> {
    closed spec fn received(&self) -> Seq<Seq<T>> {
        self.log@
    }

    closed spec fn inv(&self) -> bool {
        self.wf()
    }

    fn handle(&mut self, window: &[T]) {
        if self.window.len() == window.len() {
            let n = window.len();
            let mut i: usize = 0;
            while i < n
                invariant
                    n == window@.len(),
                    self.window@.len() == n,
                    i <= n,
                    forall|j: int| 0 <= j < i ==> self.window@[j] == window@[j],
                    self.log == old(self).log,
                    self.taken == old(self).taken,
                decreases n - i,
            {
                self.window.set(i, window[i]);
                i = i + 1;
            }
            assert(self.window@ =~= window@);
        } else {
            self.window = vstd::slice::slice_to_vec(window);
        }
        let ghost old_len = self.log@.len();
        self.log = Ghost(self.log@.push(window@));
        self.taken = Ghost(if self.taken@ > old_len { old_len } else { self.taken@ });
        self.pending = true;
    }
}

/// Provides fixed size windows extracted from a stream of arbitrarily sized
/// input buffers. Supports downsampling and partially overlapping windows.
#[verifier::reject_recursive_types(T)]
pub struct WindowProcessor<T> {
    downsampled_window: Vec<T>,
    downsampling: usize,
    downsampled_hop_size: usize,
    write_index: usize,
    wrapped_sample_counter: usize,
    input: Ghost<Seq<T>>,
}

/// The first fault of the sizes of a window processor, if any: the window and
/// hop sizes (after downsampling) and the downsampling factor must be
/// positive, and the hop size at most the window size.
pub open spec fn size_error(downsampled_size: nat, downsampled_hop_size: nat, downsampling: nat) -> Option<ConfigError> {
    if downsampled_size == 0 {
        Some(ConfigError::ZeroWindowSize)
    } else if downsampled_hop_size == 0 {
        Some(ConfigError::ZeroHopSize)
    } else if downsampling == 0 {
        Some(ConfigError::ZeroDownsampling)
    } else if downsampled_hop_size > downsampled_size {
        Some(ConfigError::HopSizeTooLarge)
    } else {
        None
    }
}

/// Checks the sizes of a window processor (see [`size_error`]).
pub fn validate_sizes(downsampled_size: usize, downsampled_hop_size: usize, downsampling: usize) -> (r: Result<(), ConfigError>)
    ensures
        r is Ok <==> size_error(downsampled_size as nat, downsampled_hop_size as nat, downsampling as nat) is None,
        r matches Err(e) ==> size_error(downsampled_size as nat, downsampled_hop_size as nat, downsampling as nat) == Some(e),
{
    if downsampled_size == 0 {
        Err(ConfigError::ZeroWindowSize)
    } else if downsampled_hop_size == 0 {
        Err(ConfigError::ZeroHopSize)
    } else if downsampling == 0 {
        Err(ConfigError::ZeroDownsampling)
    } else if downsampled_hop_size > downsampled_size {
        Err(ConfigError::HopSizeTooLarge)
    } else {
        Ok(())
    }
}

proof fn lemma_step_div_mod(a: int, h: int)
    requires
        a >= 0,
        h > 0,
    ensures
        a % h == h - 1 ==> (a + 1) % h == 0 && (a + 1) / h == a / h + 1,
        a % h != h - 1 ==> (a + 1) % h == a % h + 1 && (a + 1) / h == a / h,
{
    lemma_fundamental_div_mod(a, h);
    assert(0 <= a % h < h) by {
        lemma_mod_pos_bound(a, h);
    }
    if a % h == h - 1 {
        assert(a + 1 == (a / h + 1) * h + 0) by (nonlinear_arith)
            requires
                a == h * (a / h) + a % h,
                a % h == h - 1,
        ;
        lemma_fundamental_div_mod_converse(a + 1, h, a / h + 1, 0);
    } else {
        assert(a + 1 == (a / h) * h + (a % h + 1)) by (nonlinear_arith)
            requires
                a == h * (a / h) + a % h,
        ;
        lemma_fundamental_div_mod_converse(a + 1, h, a / h, a % h + 1);
    }
}

proof fn lemma_window_fits(k: int, a: int, h: int)
    requires
        0 <= k,
        0 <= a,
        h > 0,
        k <= a / h,
    ensures
        k * h <= a,
{
    lemma_fundamental_div_mod(a, h);
    lemma_mod_pos_bound(a, h);
    assert(k * h <= a) by (nonlinear_arith)
        requires
            a == h * (a / h) + a % h,
            a % h >= 0,
            k <= a / h,
            h > 0,
    ;
}

proof fn lemma_downsample_push<T>(input: Seq<T>, x: T, d: nat)
    ensures
        downsample(input.push(x), d) == if input.len() as int % (d as int) == 0 {
            downsample(input, d).push(x)
        } else {
            downsample(input, d)
        },
{
    assert(input.push(x).drop_last() =~= input);
}

/// Moves every element `h` places towards the front; the last `h` elements
/// keep their values.
fn rotate_left_by<T: Copy>(buf: &mut Vec<T>, h: usize)
    requires
        h <= old(buf)@.len(),
    ensures
        final(buf)@.len() == old(buf)@.len(),
        forall|m: int| 0 <= m < old(buf)@.len() - h ==> final(buf)@[m] == old(buf)@[m + h],
{
    let w = buf.len();
    let mut j: usize = 0;
    while j < w - h
        invariant
            w == old(buf)@.len(),
            h <= w,
            buf@.len() == w,
            j <= w - h,
            forall|m: int| 0 <= m < j ==> buf@[m] == old(buf)@[m + h],
            forall|m: int| j <= m < w ==> buf@[m] == old(buf)@[m],
        decreases w - h - j,
    {
        let v = buf[j + h];
        buf.set(j, v);
        j = j + 1;
    }
}

/// Appending one sample to a stream of `n` samples completes a window exactly
/// when the buffer becomes full, and leaves the earlier windows as they were.
proof fn lemma_windows_push<T>(st: Seq<T>, x: T, w: nat, h: nat)
    requires
        0 < h <= w,
    ensures
        fill_level(st.len(), w, h) < w,
        fill_level(st.len(), w, h) + 1 == w ==> {
            &&& window_count(st.len() + 1, w, h) == window_count(st.len(), w, h) + 1
            &&& fill_level(st.len() + 1, w, h) == w - h
            &&& windows_of(st.push(x), w, h) =~~= windows_of(st, w, h).push(st.push(x).subrange(st.len() + 1 - w, st.len() + 1 as int))
        },
        fill_level(st.len(), w, h) + 1 != w ==> {
            &&& fill_level(st.len() + 1, w, h) == fill_level(st.len(), w, h) + 1
            &&& windows_of(st.push(x), w, h) =~~= windows_of(st, w, h)
        },
{
    let n = st.len();
    let st2 = st.push(x);
    let old_count = window_count(n, w, h);
    if n >= w {
        lemma_step_div_mod(n - w, h as int);
        lemma_mod_pos_bound(n - w, h as int);
        lemma_fundamental_div_mod(n + 1 - w, h as int);
    }
    assert forall|k: int| 0 <= k < old_count implies
        #[trigger] st2.subrange(k * h, k * h + w) =~= st.subrange(k * h, k * h + w) by {
        lemma_window_fits(k, n - w, h as int);
    }
    if fill_level(n, w, h) + 1 == w {
        let k = old_count as int;
        if n >= w {
            assert(k * h == n + 1 - w) by (nonlinear_arith)
                requires
                    n + 1 - w == h * ((n + 1 - w) / h as int) + (n + 1 - w) % h as int,
                    (n + 1 - w) % h as int == 0,
                    (n + 1 - w) / h as int == (n - w) / h as int + 1,
                    k == (n - w) / h as int + 1,
            ;
        }
        assert(k * h == n + 1 - w);
        let a = windows_of(st, w, h);
        let b = windows_of(st2, w, h);
        let last = st2.subrange(n + 1 - w, n + 1 as int);
        assert(b.len() == a.len() + 1);
        assert forall|j: int| 0 <= j < b.len() implies #[trigger] b[j] =~= a.push(last)[j] by {
            if j < a.len() {
                assert(st2.subrange(j * h, j * h + w) =~= st.subrange(j * h, j * h + w));
            } else {
                assert(j == k);
            }
        }
        assert(b =~~= a.push(last));
    } else {
        let a = windows_of(st, w, h);
        let b = windows_of(st2, w, h);
        assert(b.len() == a.len());
        assert forall|j: int| 0 <= j < b.len() implies #[trigger] b[j] =~= a[j] by {
            assert(st2.subrange(j * h, j * h + w) =~= st.subrange(j * h, j * h + w));
        }
        assert(b =~~= a);
    }
}

impl<T: Copy> WindowProcessor<T> {
    /// The samples handed to `process` since construction or the last `reset`.
    pub closed spec fn input(&self) -> Seq<T> {
        self.input@
    }


    /// The downsampling factor.
    pub closed spec fn spec_downsampling(&self) -> nat {
        self.downsampling as nat
    }

    /// The window size after downsampling.
    pub closed spec fn spec_window_size(&self) -> nat {
        self.downsampled_window@.len()
    }

    /// The hop size after downsampling.
    pub closed spec fn spec_hop_size(&self) -> nat {
        self.downsampled_hop_size as nat
    }

    /// The downsampled stream of all input since construction or the last `reset`.
    pub open spec fn stream(&self) -> Seq<T> {
        downsample(self.input(), self.spec_downsampling())
    }

    /// The windows that the input since construction or the last `reset` has
    /// completed, and that `process` has therefore handed to its handlers.
    pub open spec fn delivered(&self) -> Seq<Seq<T>> {
        windows_of(self.stream(), self.spec_window_size(), self.spec_hop_size())
    }

    spec fn buffer_holds(&self, st: Seq<T>) -> bool {
        let w = self.downsampled_window@.len();
        let h = self.downsampled_hop_size as nat;
        &&& self.write_index == fill_level(st.len(), w, h)
        &&& forall|j: int| 0 <= j < self.write_index
            ==> self.downsampled_window@[j] == st[st.len() - self.write_index + j]
    }

    /// The sizes are valid, and the window buffer agrees with the input seen
    /// so far.
    pub closed spec fn wf(&self) -> bool {
        &&& self.downsampling > 0
        &&& self.downsampled_window@.len() > 0
        &&& 0 < self.downsampled_hop_size <= self.downsampled_window@.len()
        &&& self.wrapped_sample_counter as int == self.input@.len() as int % self.downsampling as int
        &&& self.buffer_holds(downsample(self.input@, self.downsampling as nat))
    }

    /// Creates a processor that takes every `downsampling`-th input sample and
    /// hands out windows of `downsampled_window_size` of them, starting
    /// `downsampled_hop_size` of them apart. `initial` fills the window buffer
    /// before the first window.
    pub fn new(
        downsampling: usize,
        downsampled_window_size: usize,
        downsampled_hop_size: usize,
        initial: T,
    ) -> (r: Result<Self, ConfigError>)
        ensures
            r is Ok <==> size_error(downsampled_window_size as nat, downsampled_hop_size as nat, downsampling as nat) is None,
            r matches Err(e) ==> size_error(downsampled_window_size as nat, downsampled_hop_size as nat, downsampling as nat) == Some(e),
            r matches Ok(p) ==> p.wf() && p.input().len() == 0 && p.delivered().len() == 0
                && p.spec_downsampling() == downsampling
                && p.spec_window_size() == downsampled_window_size
                && p.spec_hop_size() == downsampled_hop_size,
    {
        match validate_sizes(downsampled_window_size, downsampled_hop_size, downsampling) {
            Err(e) => Err(e),
            Ok(()) => {
                let downsampled_window = vec![initial; downsampled_window_size];
                let p = WindowProcessor {
                    downsampled_window,
                    downsampling,
                    downsampled_hop_size,
                    write_index: 0,
                    wrapped_sample_counter: 0,
                    input: Ghost(Seq::empty()),
                };
                assert(downsample(Seq::<T>::empty(), downsampling as nat) =~= Seq::empty());
                proof {
                    lemma_small_mod(0, downsampling as nat);
                }
                Ok(p)
            },
        }
    }

    /// Forgets the input seen so far, as if the processor were new. The
    /// buffer is kept.
    pub fn reset(&mut self)
        requires
            old(self).wf(),
        ensures
            final(self).wf(),
            final(self).input().len() == 0,
            final(self).delivered().len() == 0,
            final(self).spec_downsampling() == old(self).spec_downsampling(),
            final(self).spec_window_size() == old(self).spec_window_size(),
            final(self).spec_hop_size() == old(self).spec_hop_size(),
    {
        self.write_index = 0;
        self.wrapped_sample_counter = 0;
        self.input = Ghost(Seq::empty());
        assert(downsample(Seq::<T>::empty(), self.downsampling as nat) =~= Seq::empty());
        proof {
            lemma_small_mod(0, self.downsampling as nat);
        }
    }

    /// Returns the downsampling factor.
    pub fn downsampling(&self) -> (r: usize)
        ensures
            r == self.spec_downsampling(),
    {
        self.downsampling
    }

    /// Returns the hop size after downsampling.
    pub fn downsampled_hop_size(&self) -> (r: usize)
        ensures
            r == self.spec_hop_size(),
    {
        self.downsampled_hop_size
    }

    /// Returns the window size after downsampling.
    pub fn downsampled_window_size(&self) -> (r: usize)
        ensures
            r == self.spec_window_size(),
    {
        self.downsampled_window.len()
    }
}

impl<T: Copy> WindowProcessor<T> {
    /// Writes one downsampled sample, and hands the window to `handler` when
    /// it is complete.
    fn accept<H: WindowHandler<T>>(&mut self, x: T, handler: &mut H, Ghost(st): Ghost<Seq<T>>)
        requires
            0 < old(self).downsampled_hop_size <= old(self).downsampled_window@.len(),
            old(self).buffer_holds(st),
            old(handler).inv(),
        ensures
            final(handler).inv(),
            final(self).buffer_holds(st.push(x)),
            final(self).downsampled_window@.len() == old(self).downsampled_window@.len(),
            final(self).downsampled_hop_size == old(self).downsampled_hop_size,
            final(self).downsampling == old(self).downsampling,
            final(self).wrapped_sample_counter == old(self).wrapped_sample_counter,
            final(self).input == old(self).input,
            final(handler).received() == old(handler).received() + windows_of(
                st.push(x),
                old(self).downsampled_window@.len(),
                old(self).downsampled_hop_size as nat,
            ).subrange(
                windows_of(st, old(self).downsampled_window@.len(), old(self).downsampled_hop_size as nat).len() as int,
                windows_of(st.push(x), old(self).downsampled_window@.len(), old(self).downsampled_hop_size as nat).len() as int,
            ),
    {
        let w = self.downsampled_window.len();
        let h = self.downsampled_hop_size;
        let ghost n = st.len();
        let ghost st2 = st.push(x);
        let ghost before = windows_of(st, w as nat, h as nat);
        let ghost after = windows_of(st2, w as nat, h as nat);
        proof {
            lemma_windows_push(st, x, w as nat, h as nat);
        }
        self.downsampled_window.set(self.write_index, x);
        self.write_index = self.write_index + 1;
        if self.write_index == w {
            assert(self.downsampled_window@ =~= st2.subrange(n + 1 - w, n + 1 as int));
            handler.handle(self.downsampled_window.as_slice());
            assert(after.subrange(before.len() as int, after.len() as int) =~= seq![self.downsampled_window@]);
            rotate_left_by(&mut self.downsampled_window, h);
            self.write_index = w - h;
        } else {
            assert(after.subrange(before.len() as int, after.len() as int) =~= Seq::empty());
        }
        assert(handler.received() =~= old(handler).received() + after.subrange(before.len() as int, after.len() as int));
    }

    /// Processes an arbitrarily sized buffer of input samples: every
    /// `downsampling`-th sample of the whole input (counted across calls) is
    /// kept, and each window that the kept samples complete is handed to
    /// `handler`, in order, and nothing else is. The windows completed before
    /// stay as they were, so over a series of calls the handlers receive
    /// exactly the windows of the whole input, however it was cut into
    /// buffers.
    pub fn process<H: WindowHandler<T>>(&mut self, buffer: &[T], handler: &mut H)
        requires
            old(self).wf(),
            old(handler).inv(),
        ensures
            final(self).wf(),
            final(handler).inv(),
            final(self).input() == old(self).input() + buffer@,
            old(self).delivered().len() <= final(self).delivered().len(),
            final(self).delivered().subrange(0, old(self).delivered().len() as int) == old(self).delivered(),
            final(handler).received() == old(handler).received() + final(self).delivered().subrange(
                old(self).delivered().len() as int,
                final(self).delivered().len() as int,
            ),
            final(self).spec_downsampling() == old(self).spec_downsampling(),
            final(self).spec_window_size() == old(self).spec_window_size(),
            final(self).spec_hop_size() == old(self).spec_hop_size(),
    {
        let d = self.downsampling;
        let mut i: usize = 0;
        while i < buffer.len()
            invariant
                self.wf(),
                d == self.downsampling,
                d == old(self).downsampling,
                self.downsampled_window@.len() == old(self).downsampled_window@.len(),
                self.downsampled_hop_size == old(self).downsampled_hop_size,
                i <= buffer@.len(),
                self.input@ == old(self).input@ + buffer@.subrange(0, i as int),
                handler.inv(),
                old(self).delivered().len() <= self.delivered().len(),
                self.delivered().subrange(0, old(self).delivered().len() as int) == old(self).delivered(),
                handler.received() == old(handler).received() + self.delivered().subrange(
                    old(self).delivered().len() as int,
                    self.delivered().len() as int,
                ),
            decreases buffer@.len() - i,
        {
            let x = buffer[i];
            let ghost before = self.input@;
            let ghost st = downsample(before, d as nat);
            let ghost w = self.downsampled_window@.len();
            let ghost h = self.downsampled_hop_size as nat;
            let ghost recv = handler.received();
            let ghost c0 = old(self).delivered().len() as int;
            let ghost a0 = self.delivered();
            assert(a0 == windows_of(st, w, h));
            proof {
                lemma_downsample_push(before, x, d as nat);
                lemma_step_div_mod(before.len() as int, d as int);
            }
            if self.wrapped_sample_counter == 0 {
                self.accept(x, handler, Ghost(st));
                proof {
                    let a = windows_of(st, w, h);
                    let b = windows_of(st.push(x), w, h);
                    lemma_windows_push(st, x, w, h);
                    assert(a.len() <= b.len());
                    assert forall|k: int| 0 <= k < a.len() implies b[k] == a[k] by {
                        if fill_level(st.len(), w, h) + 1 != w {
                            assert(b[k] =~= a[k]);
                        }
                    }
                    assert(b.subrange(0, c0) =~= a.subrange(0, c0));
                    assert(b.subrange(c0, b.len() as int) =~= a.subrange(c0, a.len() as int) + b.subrange(a.len() as int, b.len() as int));
                    assert(handler.received() =~= old(handler).received() + b.subrange(c0, b.len() as int));
                }
            }
            self.wrapped_sample_counter = if self.wrapped_sample_counter + 1 == d {
                0
            } else {
                self.wrapped_sample_counter + 1
            };
            self.input = Ghost(before.push(x));
            assert(self.input@ =~= old(self).input@ + buffer@.subrange(0, i + 1));
            i = i + 1;
        }
        assert(buffer@.subrange(0, buffer@.len() as int) =~= buffer@);
    }
}

/// Downsampling by `d` keeps `ceil(n / d)` of `n` samples, and its `k`-th
/// sample is input sample `k * d`.
pub proof fn lemma_downsample_index<T>(input: Seq<T>, d: nat)
    requires
        d > 0,
    ensures
        downsample(input, d).len() == (input.len() + d - 1) as int / d as int,
        downsample(input, d).len() > 0 ==> (downsample(input, d).len() - 1) * d < input.len(),
        forall|k: int| 0 <= k < downsample(input, d).len() ==> #[trigger] downsample(input, d)[k] == input[k * d],
    decreases input.len(),
{
    if input.len() == 0 {
        lemma_small_mod((d - 1) as nat, d);
        lemma_fundamental_div_mod_converse((d - 1) as int, d as int, 0, (d - 1) as int);
        assert(downsample(input, d) =~= Seq::<T>::empty());
    } else {
        let prev = input.drop_last();
        lemma_downsample_index(prev, d);
        let l = input.len() as int;
        let di = d as int;
        lemma_fundamental_div_mod(l - 1, di);
        lemma_mod_pos_bound(l - 1, di);
        let q = (l - 1) / di;
        let r = (l - 1) % di;
        assert((q + 1) * di == q * di + di) by (nonlinear_arith);
        assert(l - 1 == q * di + r) by (nonlinear_arith)
            requires
                l - 1 == di * ((l - 1) / di) + (l - 1) % di,
                q == (l - 1) / di,
                r == (l - 1) % di,
        ;
        if r == 0 {
            lemma_fundamental_div_mod_converse(l + di - 2, di, q, di - 1);
            lemma_fundamental_div_mod_converse(l + di - 1, di, q + 1, 0);
        } else {
            lemma_fundamental_div_mod_converse(l + di - 2, di, q + 1, r - 1);
            lemma_fundamental_div_mod_converse(l + di - 1, di, q + 1, r);
        }
        let ds = downsample(input, d);
        let dp = downsample(prev, d);
        assert forall|k: int| 0 <= k < ds.len() implies #[trigger] ds[k] == input[k * d] by {
            if k < dp.len() {
                assert(dp[k] == prev[k * d]);
                assert(k * d <= (dp.len() - 1) * d) by (nonlinear_arith)
                    requires
                        k <= dp.len() - 1,
                        d >= 0,
                ;
            } else {
                assert(k * d == l - 1);
            }
        }
        if r != 0 && dp.len() > 0 {
            assert((dp.len() - 1) * d < prev.len());
        }
    }
}

/// Window `k` that a processor hands out holds `w` samples, and its `j`-th
/// sample is input sample `(k * h + j) * d`: it starts at input sample
/// `k * h * d`, however the input was cut into buffers.
pub proof fn lemma_window_follows_input<T>(input: Seq<T>, d: nat, w: nat, h: nat, k: int)
    requires
        d > 0,
        0 < h <= w,
        0 <= k < windows_of(downsample(input, d), w, h).len(),
    ensures
        windows_of(downsample(input, d), w, h)[k].len() == w,
        forall|j: int| 0 <= j < w ==> #[trigger] windows_of(downsample(input, d), w, h)[k][j]
            == input[(k * h + j) * d],
        windows_of(downsample(input, d), w, h)[k][0] == input[k * h * d],
{
    let st = downsample(input, d);
    lemma_downsample_index(input, d);
    let n = st.len();
    lemma_window_fits(k, n - w, h as int);
    assert(windows_of(st, w, h)[k][0] == st[k * h + 0]);
}

/// The windows of a stream that is extended stay as they were: the windows
/// of `s` are the first windows of `s + t`.
pub proof fn lemma_windows_prefix<T>(s: Seq<T>, t: Seq<T>, w: nat, h: nat)
    requires
        0 < h <= w,
    ensures
        windows_of(s, w, h).len() <= windows_of(s + t, w, h).len(),
        windows_of(s + t, w, h).subrange(0, windows_of(s, w, h).len() as int) == windows_of(s, w, h),
{
    let a = windows_of(s, w, h);
    let b = windows_of(s + t, w, h);
    if s.len() >= w {
        vstd::arithmetic::div_mod::lemma_div_is_ordered(s.len() - w, (s + t).len() - w, h as int);
    }
    assert forall|k: int| 0 <= k < a.len() implies #[trigger] b[k] == a[k] by {
        lemma_window_fits(k, s.len() - w, h as int);
        assert(b[k] =~= a[k]);
    }
    assert(b.subrange(0, a.len() as int) =~= a);
}

/// Downsampling an extended input extends the downsampled stream: the kept
/// samples of `a` are the first kept samples of `a + b`.
pub proof fn lemma_downsample_prefix<T>(a: Seq<T>, b: Seq<T>, d: nat)
    ensures
        downsample(a, d).len() <= downsample(a + b, d).len(),
        downsample(a + b, d).subrange(0, downsample(a, d).len() as int) == downsample(a, d),
    decreases b.len(),
{
    if b.len() == 0 {
        assert(a + b =~= a);
        assert(downsample(a, d).subrange(0, downsample(a, d).len() as int) =~= downsample(a, d));
    } else {
        let b0 = b.drop_last();
        lemma_downsample_prefix(a, b0, d);
        assert(a + b =~= (a + b0).push(b.last()));
        lemma_downsample_push(a + b0, b.last(), d);
        let p = downsample(a + b0, d);
        let q = downsample(a + b, d);
        assert(q.subrange(0, downsample(a, d).len() as int) =~= p.subrange(0, downsample(a, d).len() as int));
    }
}

/// Cutting the input into buffers does not change what is handed out: the
/// windows that input `a` completes, followed by the new windows that input
/// `b` then completes, are the windows that `a + b` completes.
pub proof fn lemma_chunking_invariance<T>(a: Seq<T>, b: Seq<T>, d: nat, w: nat, h: nat)
    requires
        0 < h <= w,
    ensures
        ({
            let first = windows_of(downsample(a, d), w, h);
            let whole = windows_of(downsample(a + b, d), w, h);
            first.len() <= whole.len() && first + whole.subrange(first.len() as int, whole.len() as int) == whole
        }),
{
    let sa = downsample(a, d);
    let sab = downsample(a + b, d);
    lemma_downsample_prefix(a, b, d);
    let rest = sab.subrange(sa.len() as int, sab.len() as int);
    assert(sa + rest =~= sab);
    lemma_windows_prefix(sa, rest, w, h);
    let first = windows_of(sa, w, h);
    let whole = windows_of(sab, w, h);
    assert(first + whole.subrange(first.len() as int, whole.len() as int) =~= whole);
}

} // verus!
