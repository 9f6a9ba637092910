use vstd::prelude::*;

verus! {

/// The settings a window is opened with.
pub struct WindowConfig {
    pub width: u32,
    pub height: u32,
    pub title: String,
    pub resizable: bool,
    pub visible: bool,
    pub blur: bool,
    pub transparent: bool,
    pub maximized: bool,
    pub decorations: bool,
}

impl WindowConfig {
    /// A visible, resizable, decorated window of 800 by 600 with the title
    /// `title`.
    pub fn new(title: &str) -> (r: Self)
        ensures
            r.width == 800,
            r.height == 600,
            r.title@ == title@,
            r.resizable,
            r.visible,
            !r.blur,
            !r.transparent,
            !r.maximized,
            r.decorations,
    {
        WindowConfig {
            width: 800,
            height: 600,
            title: title.to_owned(),
            resizable: true,
            visible: true,
            blur: false,
            transparent: false,
            maximized: false,
            decorations: true,
        }
    }

    pub fn with_title(self, title: &str) -> (r: Self)
        ensures
            r.title@ == title@,
            r.width == self.width,
            r.height == self.height,
            r.resizable == self.resizable,
            r.visible == self.visible,
            r.blur == self.blur,
            r.transparent == self.transparent,
            r.maximized == self.maximized,
            r.decorations == self.decorations,
    {
        WindowConfig { title: title.to_owned(), ..self }
    }

    pub fn with_size(self, width: u32, height: u32) -> (r: Self)
        ensures
            r.width == width,
            r.height == height,
            r.title == self.title,
            r.resizable == self.resizable,
            r.visible == self.visible,
            r.blur == self.blur,
            r.transparent == self.transparent,
            r.maximized == self.maximized,
            r.decorations == self.decorations,
    {
        WindowConfig { width, height, ..self }
    }

    pub fn with_resizable(self, resizable: bool) -> (r: Self)
        ensures
            r == (WindowConfig { resizable, ..self }),
    {
        WindowConfig { resizable, ..self }
    }

    pub fn with_visible(self, visible: bool) -> (r: Self)
        ensures
            r == (WindowConfig { visible, ..self }),
    {
        WindowConfig { visible, ..self }
    }

    pub fn with_blur(self, blur: bool) -> (r: Self)
        ensures
            r == (WindowConfig { blur, ..self }),
    {
        WindowConfig { blur, ..self }
    }

    pub fn with_transparent(self, transparent: bool) -> (r: Self)
        ensures
            r == (WindowConfig { transparent, ..self }),
    {
        WindowConfig { transparent, ..self }
    }

    pub fn with_maximized(self, maximized: bool) -> (r: Self)
        ensures
            r == (WindowConfig { maximized, ..self }),
    {
        WindowConfig { maximized, ..self }
    }

    pub fn with_decorations(self, decorations: bool) -> (r: Self)
        ensures
            r == (WindowConfig { decorations, ..self }),
    {
        WindowConfig { decorations, ..self }
    }
}

/// The settings of a window to build.
pub struct WindowBuilder {
    pub width: u32,
    pub height: u32,
    pub title: String,
    pub resizable: bool,
    pub visible: bool,
    pub blur: bool,
    pub transparent: bool,
    pub maximized: bool,
    pub decorations: bool,
}

impl WindowBuilder {
    /// A visible, resizable, decorated window of 800 by 600 with the title
    /// `title`.
    pub fn new(title: &str) -> (r: Self)
        ensures
            r.width == 800,
            r.height == 600,
            r.title@ == title@,
            r.resizable,
            r.visible,
            !r.blur,
            !r.transparent,
            !r.maximized,
            r.decorations,
    {
        WindowBuilder {
            width: 800,
            height: 600,
            title: title.to_owned(),
            resizable: true,
            visible: true,
            blur: false,
            transparent: false,
            maximized: false,
            decorations: true,
        }
    }

    pub fn with_title(self, title: &str) -> (r: Self)
        ensures
            r.title@ == title@,
            r.width == self.width,
            r.height == self.height,
            r.resizable == self.resizable,
            r.visible == self.visible,
            r.blur == self.blur,
            r.transparent == self.transparent,
            r.maximized == self.maximized,
            r.decorations == self.decorations,
    {
        WindowBuilder { title: title.to_owned(), ..self }
    }

    pub fn with_size(self, width: u32, height: u32) -> (r: Self)
        ensures
            r.width == width,
            r.height == height,
            r.title == self.title,
            r.resizable == self.resizable,
            r.visible == self.visible,
            r.blur == self.blur,
            r.transparent == self.transparent,
            r.maximized == self.maximized,
            r.decorations == self.decorations,
    {
        WindowBuilder { width, height, ..self }
    }

    pub fn with_resizable(self, resizable: bool) -> (r: Self)
        ensures
            r == (WindowBuilder { resizable, ..self }),
    {
        WindowBuilder { resizable, ..self }
    }

    pub fn with_visible(self, visible: bool) -> (r: Self)
        ensures
            r == (WindowBuilder { visible, ..self }),
    {
        WindowBuilder { visible, ..self }
    }

    pub fn with_blur(self, blur: bool) -> (r: Self)
        ensures
            r == (WindowBuilder { blur, ..self }),
    {
        WindowBuilder { blur, ..self }
    }

    pub fn with_transparent(self, transparent: bool) -> (r: Self)
        ensures
            r == (WindowBuilder { transparent, ..self }),
    {
        WindowBuilder { transparent, ..self }
    }

    pub fn with_maximized(self, maximized: bool) -> (r: Self)
        ensures
            r == (WindowBuilder { maximized, ..self }),
    {
        WindowBuilder { maximized, ..self }
    }

    pub fn with_decorations(self, decorations: bool) -> (r: Self)
        ensures
            r == (WindowBuilder { decorations, ..self }),
    {
        WindowBuilder { decorations, ..self }
    }
}

} // verus!
