//! The settings that are kept between runs.

use crate::model::{join_path, joined_path};
use vstd::prelude::*;
use vstd::string::*;

verus! {

/// The devices, the checkpoint and the SoundFont that were chosen last.
pub struct AppConfig {
    pub midi_input: Option<String>,
    pub midi_output: Option<String>,
    pub model: Option<String>,
    pub soundfont: Option<String>,
}

/// The checkpoint that is used when none was chosen.
pub open spec fn default_model() -> Seq<char> {
    "midilm/checkpoints/medium.pt"@
}

impl Default for AppConfig {
    fn default() -> (config: Self)
        ensures
            config.midi_input is None,
            config.midi_output is None,
            config.model is None,
            config.soundfont is None,
    {
        AppConfig { midi_input: None, midi_output: None, model: None, soundfont: None }
    }
}

/// Whether two optional texts are both there and the same.
fn same_name(a: &Option<String>, b: &Option<String>) -> (same: bool)
    ensures
        same == (a is Some && b is Some && a->0@ == b->0@),
{
    match (a, b) {
        (Some(a), Some(b)) => *a == *b,
        _ => false,
    }
}

impl AppConfig {
    /// The chosen checkpoint, else the usual one.
    pub fn model_or_default(&self) -> (model: String)
        ensures
            model@ == match self.model {
                Some(model) => model@,
                None => default_model(),
            },
            self.model is None ==> model@ == "midilm/checkpoints/medium.pt"@,
    {
        match &self.model {
            Some(model) => model.clone(),
            None => "midilm/checkpoints/medium.pt".to_owned(),
        }
    }

    /// Whether both remembered devices are there again, that is, are the ones that the
    /// selections show.
    pub fn should_connect(&self, input: &Option<String>, output: &Option<String>) -> (connect:
        bool)
        ensures
            connect == {
                &&& self.midi_input is Some && input is Some && self.midi_input->0@ == input->0@
                &&& self.midi_output is Some && output is Some && self.midi_output->0@
                    == output->0@
            },
    {
        same_name(&self.midi_input, input) && same_name(&self.midi_output, output)
    }

    /// Remembers the checkpoint of a request, and its SoundFont if it has one.
    pub fn remember_request(&mut self, model: String, soundfont: &str)
        ensures
            final(self).model == Some(model),
            soundfont@.len() == 0 ==> final(self).soundfont == old(self).soundfont,
            soundfont@.len() > 0 ==> (final(self).soundfont matches Some(path) && path@
                == soundfont@),
            final(self).midi_input == old(self).midi_input,
            final(self).midi_output == old(self).midi_output,
    {
        self.model = Some(model);
        if !soundfont.is_empty() {
            self.soundfont = Some(soundfont.to_owned());
        }
    }

    /// Remembers the devices that are connected.
    pub fn remember_devices(&mut self, input: Option<String>, output: Option<String>)
        ensures
            *final(self) == (AppConfig { midi_input: input, midi_output: output, ..*old(self) }),
    {
        self.midi_input = input;
        self.midi_output = output;
    }
}

/// Where the settings are kept: below the directory for settings, if one is set and not
/// empty, else below that of the user, else in the working directory.
pub open spec fn config_location(config_home: Option<Seq<char>>, home: Option<Seq<char>>) -> Seq<
    char,
> {
    if config_home is Some && config_home->0.len() > 0 {
        joined_path(config_home->0, "midi-autocomplete/config.toml"@)
    } else if home is Some {
        joined_path(home->0, ".config/midi-autocomplete/config.toml"@)
    } else {
        "config.toml"@
    }
}

/// The contents of an optional text.
pub open spec fn text_of(text: Option<&str>) -> Option<Seq<char>> {
    match text {
        Some(text) => Some(text@),
        None => None,
    }
}

/// Where the settings are kept.
pub fn config_path(config_home: Option<&str>, home: Option<&str>) -> (path: String)
    ensures
        path@ == config_location(text_of(config_home), text_of(home)),
{
    if let Some(directory) = config_home {
        if !directory.is_empty() {
            return join_path(directory, "midi-autocomplete/config.toml");
        }
    }
    match home {
        Some(directory) => join_path(directory, ".config/midi-autocomplete/config.toml"),
        None => "config.toml".to_owned(),
    }
}

/// The settings are kept below the directory for settings. Without one, or if it is empty, they are
/// kept below that of the user, among its hidden files. Without either they are kept where the
/// program runs.
pub proof fn settings_have_a_place(directory: Seq<char>, home: Option<Seq<char>>)
    ensures
        directory.len() > 0 ==> config_location(Some(directory), home) == joined_path(
            directory,
            "midi-autocomplete/config.toml"@,
        ),
        config_location(Some(Seq::empty()), home) == config_location(None, home),
        home matches Some(user) ==> config_location(None, home) == joined_path(
            user,
            ".config/midi-autocomplete/config.toml"@,
        ),
        config_location(None, None) == "config.toml"@,
        directory.len() > 0 ==> config_location(Some(directory), home) == config_location(
            Some(directory),
            None,
        ),
{
}

} // verus!
