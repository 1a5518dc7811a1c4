use vstd::prelude::*;

verus! {

/// The persisted user configuration.  Loading it from and saving it to
/// disk is the enclosing application's job; the core only holds the
/// values.
pub struct Config {
    pub email: String,
}

impl Default for Config {
    fn default() -> (r: Config)
        ensures
            r.email@ == Seq::<char>::empty(),
    {
        Config { email: String::new() }
    }
}

/// The state behind the configuration dialog: the working copy of the
/// configuration, whether the dialog is open, and the edit buffers.
pub struct ConfigEditor {
    pub config: Config,
    pub open: bool,
    pub email_buffer: String,
    pub error_msg: String,
}

impl ConfigEditor {
    /// A closed editor over a default configuration.  The caller may
    /// replace `config` (and mirror it into `email_buffer`) with values
    /// loaded from persistent storage.
    pub fn new() -> (r: ConfigEditor)
        ensures
            !r.open,
            r.config.email@ == Seq::<char>::empty(),
            r.email_buffer@ == Seq::<char>::empty(),
            r.error_msg@ == Seq::<char>::empty(),
    {
        ConfigEditor {
            config: Config { email: String::new() },
            open: false,
            email_buffer: String::new(),
            error_msg: String::new(),
        }
    }

    pub fn is_open(&self) -> (r: bool)
        ensures
            r == self.open,
    {
        self.open
    }

    pub fn open(&mut self)
        ensures
            final(self).open,
            final(self).config == old(self).config,
            final(self).email_buffer == old(self).email_buffer,
            final(self).error_msg == old(self).error_msg,
    {
        self.open = true;
    }

    pub fn close(&mut self)
        ensures
            !final(self).open,
            final(self).config == old(self).config,
            final(self).email_buffer == old(self).email_buffer,
            final(self).error_msg@ == Seq::<char>::empty(),
    {
        self.open = false;
        self.error_msg = String::new();
    }
}

} // verus!
