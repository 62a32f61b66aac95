//! What is shown: the page, how large, and which part of it.
use crate::copy::CopyMode;
use crate::keys::Action;
use crate::worker::Fit;
use vstd::prelude::*;

verus! {

/// The least and the greatest zoom, in percent. At the least the whole page is shown.
pub const ZOOM_MIN: u32 = 100;

pub const ZOOM_MAX: u32 = 1600;

/// What is shown. `T` is the type of a page coordinate.
pub struct ViewState<T> {
    pub page: usize,
    /// The zoom in percent of the size at which the whole page is shown.
    pub zoom: u32,
    /// The point of the page in the middle of the view. `None` is the middle of the page.
    pub center: Option<(T, T)>,
    /// The width and the height of the view that was last drawn.
    pub last_vw: T,
    pub last_vh: T,
    /// By how much the image is drawn larger than it is shown.
    pub scale: u32,
    /// Fit the content when the page is next drawn.
    pub pending_fit: Option<Fit>,
    /// Whether the list of keys is shown.
    pub help: bool,
    /// The text, while it is selected from.
    pub copy: Option<CopyMode<T>>,
    /// The rectangle of the page that was last drawn.
    pub last_viewport: Option<[T; 4]>,
    /// A message to show once.
    pub status: Option<String>,
}

/// A zoom, brought into range.
pub open spec fn zoom_in_range(zoom: int) -> u32 {
    if zoom < ZOOM_MIN {
        ZOOM_MIN
    } else if zoom > ZOOM_MAX {
        ZOOM_MAX
    } else {
        zoom as u32
    }
}

/// Brings a zoom into range.
pub fn clamp_zoom(zoom: i64) -> (r: u32)
    ensures
        r == zoom_in_range(zoom as int),
        ZOOM_MIN <= r <= ZOOM_MAX,
{
    if zoom < ZOOM_MIN as i64 {
        ZOOM_MIN
    } else if zoom > ZOOM_MAX as i64 {
        ZOOM_MAX
    } else {
        zoom as u32
    }
}

impl<T: Copy> ViewState<T> {
    /// `self` at page `page`, centred, if that is another page.
    pub open spec fn at_page(self, page: usize) -> Self {
        if page == self.page {
            self
        } else {
            ViewState { page, center: None, ..self }
        }
    }

    /// The page that an action leads to, of `pages` pages.
    pub open spec fn page_after(self, action: Action, pages: usize) -> usize {
        match action {
            Action::NextPage => if self.page + 1 < pages {
                (self.page + 1) as usize
            } else {
                self.page
            },
            Action::PrevPage => if self.page > 0 {
                (self.page - 1) as usize
            } else {
                self.page
            },
            Action::FirstPage => 0,
            Action::LastPage => if pages > 0 {
                (pages - 1) as usize
            } else {
                0
            },
            _ => self.page,
        }
    }

    /// Whether `after` is `self` after an action. Moving the view moves its middle, by what `pan`
    /// gives for the middle, the size of the view and the direction; before the page was drawn the
    /// view does not move.
    pub open spec fn acted<F: Fn((T, T), T, T, i32, i32) -> (T, T)>(
        self,
        action: Action,
        pages: usize,
        pan: F,
        after: Self,
    ) -> bool {
        match action {
            Action::ZoomIn => after == (ViewState {
                zoom: zoom_in_range(self.zoom * 3 / 2),
                ..self
            }),
            Action::ZoomOut => after == (ViewState {
                zoom: zoom_in_range(self.zoom * 2 / 3),
                ..self
            }),
            Action::ZoomReset => after == (ViewState { zoom: ZOOM_MIN, center: None, ..self }),
            Action::Pan(dx, dy) => match self.center {
                Some(c) => exists|moved: (T, T)| #[trigger]
                    call_ensures(pan, (c, self.last_vw, self.last_vh, dx, dy), moved) && after == (
                    ViewState { center: Some(moved), ..self }),
                None => after == self,
            },
            Action::NextPage | Action::PrevPage | Action::FirstPage | Action::LastPage => after
                == self.at_page(self.page_after(action, pages)),
            Action::FitContent(fit) => after == (ViewState { pending_fit: Some(fit), ..self }),
            Action::Quit | Action::ToggleHelp | Action::EnterCopyMode | Action::ExportPdf => after
                == self,
        }
    }

    /// The state at the start: the first page, in its middle.
    pub fn start(zoom: u32, scale: u32, zero: T) -> (r: Self)
        ensures
            r == (ViewState::<T> {
                page: 0,
                zoom: zoom_in_range(zoom as int),
                center: None,
                last_vw: zero,
                last_vh: zero,
                scale,
                pending_fit: None,
                help: false,
                copy: None,
                last_viewport: None,
                status: None,
            }),
    {
        ViewState {
            page: 0,
            zoom: clamp_zoom(zoom as i64),
            center: None,
            last_vw: zero,
            last_vh: zero,
            scale,
            pending_fit: None,
            help: false,
            copy: None,
            last_viewport: None,
            status: None,
        }
    }

    fn go_to(&mut self, page: usize)
        ensures
            *final(self) == old(self).at_page(page),
    {
        if self.page != page {
            self.page = page;
            self.center = None;
        }
    }

    /// After the document changed: a page past the last of `pages` becomes the last.
    pub fn keep_within(&mut self, pages: usize)
        requires
            pages > 0,
        ensures
            *final(self) == (if old(self).page >= pages {
                old(self).at_page((pages - 1) as usize)
            } else {
                *old(self)
            }),
            final(self).page < pages,
    {
        if self.page >= pages {
            self.go_to(pages - 1);
        }
    }

    /// The content is fitted: the zoom that it takes, brought into range, around its middle.
    pub fn fitted(&mut self, zoom: i64, center: (T, T))
        ensures
            *final(self) == (ViewState {
                zoom: zoom_in_range(zoom as int),
                center: Some(center),
                ..*old(self)
            }),
    {
        self.zoom = clamp_zoom(zoom);
        self.center = Some(center);
    }

    /// A part of the page was drawn, with its middle at `center`.
    pub fn drawn(&mut self, viewport: [T; 4], center: (T, T))
        ensures
            *final(self) == (ViewState {
                last_vw: viewport@[2],
                last_vh: viewport@[3],
                center: Some(center),
                last_viewport: Some(viewport),
                ..*old(self)
            }),
    {
        self.last_vw = viewport[2];
        self.last_vh = viewport[3];
        self.center = Some(center);
        self.last_viewport = Some(viewport);
    }

    /// Takes the request to fit the content, if there is one.
    pub fn take_fit(&mut self) -> (r: Option<Fit>)
        ensures
            r == old(self).pending_fit,
            *final(self) == (ViewState { pending_fit: None, ..*old(self) }),
    {
        let fit = self.pending_fit;
        self.pending_fit = None;
        fit
    }
}

/// Carries out an action on what is shown. Actions that need more than that are left to others.
pub fn apply_action<T: Copy>(
    action: Action,
    pages: usize,
    state: &mut ViewState<T>,
    pan: impl Fn((T, T), T, T, i32, i32) -> (T, T),
)
    requires
        old(state).zoom * 3 <= u32::MAX,
        forall|c: (T, T), w: T, h: T, dx: i32, dy: i32| #[trigger]
            call_requires(pan, (c, w, h, dx, dy)),
    ensures
        old(state).acted(action, pages, pan, *final(state)),
        ZOOM_MIN <= old(state).zoom <= ZOOM_MAX ==> ZOOM_MIN <= final(state).zoom <= ZOOM_MAX,
        old(state).page < pages ==> final(state).page < pages,
{
    match action {
        Action::ZoomIn => {
            state.zoom = clamp_zoom((state.zoom * 3 / 2) as i64);
        },
        Action::ZoomOut => {
            state.zoom = clamp_zoom((state.zoom * 2 / 3) as i64);
        },
        Action::ZoomReset => {
            state.zoom = ZOOM_MIN;
            state.center = None;
        },
        Action::Pan(dx, dy) => {
            if let Some(c) = state.center {
                let moved = pan(c, state.last_vw, state.last_vh, dx, dy);
                state.center = Some(moved);
            }
        },
        Action::NextPage => {
            if pages > 0 && state.page < pages - 1 {
                state.go_to(state.page + 1);
            }
        },
        Action::PrevPage => {
            if state.page > 0 {
                state.go_to(state.page - 1);
            }
        },
        Action::FirstPage => {
            state.go_to(0);
        },
        Action::LastPage => {
            state.go_to(
                if pages > 0 {
                    pages - 1
                } else {
                    0
                },
            );
        },
        Action::FitContent(fit) => {
            state.pending_fit = Some(fit);
        },
        Action::Quit | Action::ToggleHelp | Action::EnterCopyMode | Action::ExportPdf => {},
    }
}

/// Turning a page and turning back leads to the page that was left.
pub proof fn law_turning_back<T: Copy>(s: ViewState<T>, pages: usize)
    ensures
        s.page + 1 < pages ==> s.at_page(s.page_after(Action::NextPage, pages)).page_after(
            Action::PrevPage,
            pages,
        ) == s.page,
        0 < s.page < pages ==> s.at_page(s.page_after(Action::PrevPage, pages)).page_after(
            Action::NextPage,
            pages,
        ) == s.page,
{
}

/// Zooming in and out ends at the greatest and the least zoom, and goes no further.
pub proof fn law_zoom_has_ends(zoom: u32)
    requires
        ZOOM_MIN <= zoom <= ZOOM_MAX,
    ensures
        zoom < ZOOM_MAX ==> zoom < zoom_in_range(zoom * 3 / 2),
        zoom > ZOOM_MIN ==> zoom > zoom_in_range(zoom * 2 / 3),
        zoom_in_range(ZOOM_MAX * 3 / 2) == ZOOM_MAX,
        zoom_in_range(ZOOM_MIN * 2 / 3) == ZOOM_MIN,
{
}

/// Zooming in makes the zoom half as large again, and zooming out makes it two thirds, rounded down
/// to whole percents, as far as the range from 100 to 1600 percent allows. No other action changes
/// the zoom, except that resetting it shows the whole page again, from its middle.
pub proof fn law_zoom_by_half<T: Copy, F: Fn((T, T), T, T, i32, i32) -> (T, T)>(
    before: ViewState<T>,
    action: Action,
    pages: usize,
    pan: F,
    after: ViewState<T>,
)
    requires
        before.acted(action, pages, pan, after),
        100 <= before.zoom <= 1600,
    ensures
        100 <= after.zoom <= 1600,
        action is ZoomIn ==> after.zoom == 1600 || (2 * after.zoom <= 3 * before.zoom < 2
            * after.zoom + 2),
        action is ZoomIn && after.zoom == 1600 ==> 3 * before.zoom >= 2 * 1600,
        action is ZoomOut ==> after.zoom == 100 || (3 * after.zoom <= 2 * before.zoom < 3
            * after.zoom + 3),
        action is ZoomOut && after.zoom == 100 ==> 2 * before.zoom < 3 * 101,
        action is ZoomReset ==> after.zoom == 100 && after.center is None,
        !(action is ZoomIn || action is ZoomOut || action is ZoomReset) ==> after.zoom
            == before.zoom,
        action is ZoomIn || action is ZoomOut ==> after.center == before.center,
{
}

/// Pages are turned one by one, or to the first or the last, and never past either. Another page is
/// shown from its middle, and the same page as it was. No other action turns pages.
pub proof fn law_pages_are_turned<T: Copy, F: Fn((T, T), T, T, i32, i32) -> (T, T)>(
    before: ViewState<T>,
    action: Action,
    pages: usize,
    pan: F,
    after: ViewState<T>,
)
    requires
        before.acted(action, pages, pan, after),
        before.page < pages,
    ensures
        action is NextPage && before.page < pages - 1 ==> after.page == before.page + 1,
        action is NextPage && before.page == pages - 1 ==> after == before,
        action is PrevPage && before.page > 0 ==> after.page == before.page - 1,
        action is PrevPage && before.page == 0 ==> after == before,
        action is FirstPage ==> after.page == 0,
        action is LastPage ==> after.page == pages - 1,
        !(action is NextPage || action is PrevPage || action is FirstPage || action is LastPage)
            ==> after.page == before.page,
        after.page != before.page ==> after.center is None,
        (action is NextPage || action is PrevPage || action is FirstPage || action is LastPage)
            && after.page == before.page ==> after == before,
{
}

/// The view moves only when it is told to, by the two steps that it is told, and only after the page
/// was drawn. Content is fitted as it was asked for. No action changes anything else.
pub proof fn law_view_moves_as_told<T: Copy, F: Fn((T, T), T, T, i32, i32) -> (T, T)>(
    before: ViewState<T>,
    action: Action,
    pages: usize,
    pan: F,
    after: ViewState<T>,
)
    requires
        before.acted(action, pages, pan, after),
    ensures
        action matches Action::Pan(dx, dy) ==> (match (before.center, after.center) {
            (Some(c), Some(d)) => call_ensures(
                pan,
                (c, before.last_vw, before.last_vh, dx, dy),
                d,
            ),
            (None, None) => true,
            _ => false,
        }),
        action matches Action::FitContent(fit) ==> after.pending_fit == Some(fit),
        !(action is FitContent) ==> after.pending_fit == before.pending_fit,
        action is FitContent ==> after.center == before.center,
        after == (ViewState {
            page: after.page,
            zoom: after.zoom,
            center: after.center,
            pending_fit: after.pending_fit,
            ..before
        }),
        action is Quit || action is ToggleHelp || action is EnterCopyMode || action is ExportPdf
            ==> after == before,
{
}

} // verus!
